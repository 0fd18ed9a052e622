//! The per-state token index, built breadth-first from the initial state.

use crate::automaton::{entry_keys, lemma_walk_in_values, lemma_walk_len, text_set, vocab_view, walk_end, walk_states, FSMInfo};
use crate::encoding::get_vocabulary_transition_keys;
use crate::scan::{scan_set, state_scan_tokens};
use std::collections::HashSet;
use vstd::prelude::*;

verus! {

broadcast use vstd::std_specs::hash::group_hash_axioms;

/// The key sequence of each vocabulary entry.
pub open spec fn vocab_keys(
    syms: Seq<(Seq<char>, u32)>,
    anything: u32,
    frozen: Set<Seq<char>>,
    vocab: Seq<(Seq<char>, Seq<u32>)>,
) -> Seq<Seq<u32>> {
    Seq::new(vocab.len(), |i: int| entry_keys(syms, anything, frozen, vocab[i].0))
}

/// Some token leads from `from` to `to`.
pub open spec fn token_step(
    trans: Map<(u32, u32), u32>,
    vocab: Seq<(Seq<char>, Seq<u32>)>,
    keys: Seq<Seq<u32>>,
    from: u32,
    to: u32,
) -> bool {
    exists|t: u32| #[trigger] scan_set(trans, vocab, keys, from).contains((t, to))
}

/// `path` starts at `init` and each of its states leads to the next by a token.
pub open spec fn is_token_path(
    trans: Map<(u32, u32), u32>,
    vocab: Seq<(Seq<char>, Seq<u32>)>,
    keys: Seq<Seq<u32>>,
    init: u32,
    path: Seq<u32>,
) -> bool {
    &&& path.len() > 0
    &&& path[0] == init
    &&& forall|i: int| 0 <= i < path.len() - 1 ==> token_step(trans, vocab, keys, #[trigger] path[i], path[i + 1])
}

/// `s` is reached from `init` by some sequence of tokens.
pub open spec fn reachable(
    trans: Map<(u32, u32), u32>,
    vocab: Seq<(Seq<char>, Seq<u32>)>,
    keys: Seq<Seq<u32>>,
    init: u32,
    s: u32,
) -> bool {
    exists|path: Seq<u32>| is_token_path(trans, vocab, keys, init, path) && path.last() == s
}

/// The index: every reachable state with at least one token, mapped to the
/// `(token id, end state)` pairs of its scan.
pub open spec fn index_model(
    trans: Map<(u32, u32), u32>,
    vocab: Seq<(Seq<char>, Seq<u32>)>,
    keys: Seq<Seq<u32>>,
    init: u32,
) -> Map<u32, Set<(u32, u32)>> {
    Map::new(
        |s: u32| reachable(trans, vocab, keys, init, s) && scan_set(trans, vocab, keys, s) != Set::<(u32, u32)>::empty(),
        |s: u32| scan_set(trans, vocab, keys, s),
    )
}

/// The map that a list of `(state, pairs)` entries stands for.
pub open spec fn index_view(entries: Seq<(u32, Vec<(u32, u32)>)>) -> Map<u32, Set<(u32, u32)>> {
    Map::new(
        |s: u32| exists|i: int| 0 <= i < entries.len() && (#[trigger] entries[i]).0 == s,
        |s: u32| entries[choose|i: int| 0 <= i < entries.len() && (#[trigger] entries[i]).0 == s].1@.to_set(),
    )
}

/// `entries` lists each state of `model` once, with its pairs.
pub open spec fn lists_index(entries: Seq<(u32, Vec<(u32, u32)>)>, model: Map<u32, Set<(u32, u32)>>) -> bool {
    &&& forall|i: int, j: int| 0 <= i < j < entries.len() ==> entries[i].0 != entries[j].0
    &&& forall|i: int|
        0 <= i < entries.len() ==> model.contains_key((#[trigger] entries[i]).0) && entries[i].1@.to_set()
            == model[entries[i].0]
    &&& forall|s: u32| model.contains_key(s) ==> exists|i: int| 0 <= i < entries.len() && (#[trigger] entries[i]).0 == s
}

pub proof fn lemma_lists_index_view(entries: Seq<(u32, Vec<(u32, u32)>)>, model: Map<u32, Set<(u32, u32)>>)
    requires
        lists_index(entries, model),
    ensures
        index_view(entries) == model,
{
    assert forall|s: u32| #[trigger] index_view(entries).contains_key(s) implies model.contains_key(s)
        && index_view(entries)[s] == model[s] by {
        let i = choose|i: int| 0 <= i < entries.len() && (#[trigger] entries[i]).0 == s;
        assert(model.contains_key(entries[i].0));
    }
    assert forall|s: u32| model.contains_key(s) implies #[trigger] index_view(entries).contains_key(s) by {
        let i = choose|i: int| 0 <= i < entries.len() && (#[trigger] entries[i]).0 == s;
    }
    assert(index_view(entries) =~= model);
}

proof fn lemma_end_in_domain(fsm: &FSMInfo, keys: Seq<u32>, start: u32, e: u32)
    requires
        walk_end(fsm.transitions(), keys, start) == Some(e),
        fsm.state_domain().contains(start),
    ensures
        fsm.state_domain().contains(e),
{
    fsm.lemma_state_domain();
    let trans = fsm.transitions();
    if keys.len() > 0 {
        lemma_walk_in_values(trans, keys, start);
        let w = walk_states(trans, keys, start);
        assert(trans.values().contains(w[w.len() - 1]));
    }
}

proof fn lemma_closed_has_path(
    trans: Map<(u32, u32), u32>,
    vocab: Seq<(Seq<char>, Seq<u32>)>,
    keys: Seq<Seq<u32>>,
    init: u32,
    seen: Set<u32>,
    path: Seq<u32>,
    n: int,
)
    requires
        seen.contains(init),
        forall|p: u32, t: u32, e: u32|
            seen.contains(p) && #[trigger] scan_set(trans, vocab, keys, p).contains((t, e)) ==> seen.contains(e),
        is_token_path(trans, vocab, keys, init, path),
        0 <= n < path.len(),
    ensures
        seen.contains(path[n]),
    decreases n,
{
    if n > 0 {
        lemma_closed_has_path(trans, vocab, keys, init, seen, path, n - 1);
        assert(token_step(trans, vocab, keys, path[n - 1], path[n]));
        let t = choose|t: u32| #[trigger] scan_set(trans, vocab, keys, path[n - 1]).contains((t, path[n]));
    }
}

proof fn lemma_finished_index(
    trans: Map<(u32, u32), u32>,
    vocab: Seq<(Seq<char>, Seq<u32>)>,
    keys: Seq<Seq<u32>>,
    init: u32,
    seen: Set<u32>,
    entries: Seq<(u32, Vec<(u32, u32)>)>,
)
    requires
        seen.contains(init),
        forall|x: u32| seen.contains(x) ==> reachable(trans, vocab, keys, init, x),
        forall|p: u32, t: u32, e: u32|
            seen.contains(p) && #[trigger] scan_set(trans, vocab, keys, p).contains((t, e)) ==> seen.contains(e),
        forall|i: int|
            0 <= i < entries.len() ==> seen.contains((#[trigger] entries[i]).0) && entries[i].1@.to_set()
                == scan_set(trans, vocab, keys, entries[i].0) && entries[i].1@.len() > 0,
        forall|i: int, j: int| 0 <= i < j < entries.len() ==> entries[i].0 != entries[j].0,
        forall|p: u32|
            seen.contains(p) && scan_set(trans, vocab, keys, p) != Set::<(u32, u32)>::empty()
                ==> exists|i: int| 0 <= i < entries.len() && (#[trigger] entries[i]).0 == p,
    ensures
        lists_index(entries, index_model(trans, vocab, keys, init)),
{
    let model = index_model(trans, vocab, keys, init);
    assert forall|i: int| 0 <= i < entries.len() implies model.contains_key((#[trigger] entries[i]).0)
        && entries[i].1@.to_set() == model[entries[i].0] by {
        let s = entries[i].0;
        assert(entries[i].1@.to_set().contains(entries[i].1@[0]));
        assert(scan_set(trans, vocab, keys, s).contains(entries[i].1@[0]));
        assert(scan_set(trans, vocab, keys, s) != Set::<(u32, u32)>::empty());
        assert(reachable(trans, vocab, keys, init, s));
    }
    assert forall|x: u32| model.contains_key(x) implies exists|i: int| 0 <= i < entries.len() && (#[trigger] entries[i]).0 == x by {
        let path = choose|path: Seq<u32>| is_token_path(trans, vocab, keys, init, path) && path.last() == x;
        lemma_closed_has_path(trans, vocab, keys, init, seen, path, path.len() - 1);
    }
}

/// Builds the index of `fsm` over `vocabulary`: for every state reachable from
/// the initial one by whole tokens, and that has at least one token, the
/// `(token id, end state)` pairs of its scan. Each state is listed once.
pub fn create_fsm_index_end_to_end(
    fsm: &FSMInfo,
    vocabulary: &Vec<(String, Vec<u32>)>,
    frozen_tokens: &Vec<String>,
) -> (r: Vec<(u32, Vec<(u32, u32)>)>)
    ensures
        lists_index(
            r@,
            index_model(
                fsm.transitions(),
                vocab_view(vocabulary@),
                vocab_keys(fsm.symbol_table(), fsm.anything(), text_set(frozen_tokens@), vocab_view(vocabulary@)),
                fsm.initial_state(),
            ),
        ),
{
    let keys = get_vocabulary_transition_keys(fsm, vocabulary, frozen_tokens);
    let ghost trans = fsm.transitions();
    let ghost vocab = vocab_view(vocabulary@);
    let ghost ks = keys@.map_values(|k: Vec<u32>| k@);
    let ghost init = fsm.initial_state();
    let ghost dom = fsm.state_domain();
    proof {
        assert(ks =~= vocab_keys(fsm.symbol_table(), fsm.anything(), text_set(frozen_tokens@), vocab));
        fsm.lemma_state_domain();
        assert(is_token_path(trans, vocab, ks, init, seq![init]) && seq![init].last() == init);
    }
    let start = fsm.initial();
    let mut index: Vec<(u32, Vec<(u32, u32)>)> = Vec::new();
    let mut discovered: HashSet<u32> = HashSet::new();
    let mut stack: Vec<u32> = Vec::new();
    discovered.insert(start);
    stack.push(start);
    let ghost mut processed: Set<u32> = Set::empty();
    proof {
        assert(stack@[0] == start);
        assert(reachable(trans, vocab, ks, init, start));
        assert forall|x: u32| stack@.contains(x) implies x == start by {
            let q = choose|q: int| 0 <= q < stack@.len() && stack@[q] == x;
        }
    }
    while stack.len() > 0
        invariant
            trans == fsm.transitions(),
            vocab == vocab_view(vocabulary@),
            ks == keys@.map_values(|k: Vec<u32>| k@),
            init == fsm.initial_state(),
            dom == fsm.state_domain(),
            dom.finite(),
            processed.finite(),
            forall|x: u32| #[trigger] discovered@.contains(x) <==> processed.contains(x) || stack@.contains(x),
            forall|x: u32| stack@.contains(x) ==> !processed.contains(x),
            stack@.no_duplicates(),
            forall|x: u32| discovered@.contains(x) ==> dom.contains(x),
            discovered@.contains(init),
            forall|x: u32| discovered@.contains(x) ==> reachable(trans, vocab, ks, init, x),
            forall|p: u32, t: u32, e: u32|
                processed.contains(p) && #[trigger] scan_set(trans, vocab, ks, p).contains((t, e)) ==> discovered@.contains(e),
            forall|i: int|
                0 <= i < index@.len() ==> processed.contains((#[trigger] index@[i]).0) && index@[i].1@.to_set()
                    == scan_set(trans, vocab, ks, index@[i].0) && index@[i].1@.len() > 0,
            forall|i: int, j: int| 0 <= i < j < index@.len() ==> index@[i].0 != index@[j].0,
            forall|p: u32|
                processed.contains(p) && scan_set(trans, vocab, ks, p) != Set::<(u32, u32)>::empty()
                    ==> exists|i: int| 0 <= i < index@.len() && (#[trigger] index@[i]).0 == p,
        decreases dom.len() - processed.len(),
    {
        let ghost before = stack@;
        let s = stack.pop().unwrap();
        proof {
            assert(before[before.len() - 1] == s);
            assert(before.contains(s));
            assert forall|x: u32| stack@.contains(x) implies before.contains(x) && x != s by {
                let k = choose|k: int| 0 <= k < stack@.len() && stack@[k] == x;
                assert(before[k] == x);
            }
            assert forall|x: u32| before.contains(x) && x != s implies stack@.contains(x) by {
                let k = choose|k: int| 0 <= k < before.len() && before[k] == x;
                assert(stack@[k] == x);
            }
        }
        let pairs = state_scan_tokens(fsm, vocabulary, &keys, s);
        let ghost scan = scan_set(trans, vocab, ks, s);
        proof {
            assert(discovered@.contains(s));
            assert(reachable(trans, vocab, ks, init, s));
            let path = choose|path: Seq<u32>| is_token_path(trans, vocab, ks, init, path) && path.last() == s;
            assert forall|e: u32| token_step(trans, vocab, ks, s, e) implies reachable(trans, vocab, ks, init, e) by {
                let longer = path.push(e);
                assert forall|i: int| 0 <= i < longer.len() - 1 implies token_step(trans, vocab, ks, #[trigger] longer[i], longer[i + 1]) by {
                    if i < path.len() - 1 {
                        assert(longer[i] == path[i] && longer[i + 1] == path[i + 1]);
                    }
                }
                assert(longer[0] == init);
                assert(is_token_path(trans, vocab, ks, init, longer));
                assert(longer.last() == e);
            }
        }
        let mut k: usize = 0;
        while k < pairs.len()
            invariant
                trans == fsm.transitions(),
                vocab == vocab_view(vocabulary@),
                ks == keys@.map_values(|k: Vec<u32>| k@),
                init == fsm.initial_state(),
                dom == fsm.state_domain(),
                pairs@.to_set() == scan,
                scan == scan_set(trans, vocab, ks, s),
                k <= pairs.len(),
                !processed.contains(s),
                dom.contains(s),
                forall|e: u32| token_step(trans, vocab, ks, s, e) ==> reachable(trans, vocab, ks, init, e),
                forall|x: u32| #[trigger] discovered@.contains(x) <==> processed.contains(x) || x == s || stack@.contains(x),
                forall|x: u32| stack@.contains(x) ==> !processed.contains(x) && x != s,
                stack@.no_duplicates(),
                forall|x: u32| discovered@.contains(x) ==> dom.contains(x),
                discovered@.contains(init),
                forall|x: u32| discovered@.contains(x) ==> reachable(trans, vocab, ks, init, x),
                forall|p: u32, t: u32, e: u32|
                    processed.contains(p) && #[trigger] scan_set(trans, vocab, ks, p).contains((t, e)) ==> discovered@.contains(e),
                forall|j: int| 0 <= j < k ==> discovered@.contains((#[trigger] pairs@[j]).1),
            decreases pairs.len() - k,
        {
            let (t, e) = pairs[k];
            proof {
                assert(pairs@.contains(pairs@[k as int]));
                assert(scan.contains((t, e)));
                assert(token_step(trans, vocab, ks, s, e));
                let i = choose|i: int|
                    0 <= i < vocab.len() && i < ks.len() && vocab[i].1.contains(t) && walk_end(trans, ks[i], s) == Some(e);
                lemma_end_in_domain(fsm, ks[i], s, e);
            }
            if !discovered.contains(&e) {
                let ghost sb = stack@;
                let ghost db = discovered@;
                discovered.insert(e);
                stack.push(e);
                proof {
                    assert forall|x: u32| stack@.contains(x) <==> sb.contains(x) || x == e by {
                        if stack@.contains(x) {
                            let q = choose|q: int| 0 <= q < stack@.len() && stack@[q] == x;
                            if q < sb.len() {
                                assert(sb[q] == x);
                            }
                        }
                        if sb.contains(x) {
                            let q = choose|q: int| 0 <= q < sb.len() && sb[q] == x;
                            assert(stack@[q] == x);
                        }
                        if x == e {
                            assert(stack@[sb.len() as int] == x);
                        }
                    }
                    assert(!db.contains(e));
                    assert(!sb.contains(e));
                    assert forall|a: int, b: int| 0 <= a < b < stack@.len() implies stack@[a] != stack@[b] by {
                        if b == sb.len() {
                            assert(sb.contains(stack@[a]));
                        } else {
                            assert(sb[a] != sb[b]);
                        }
                    }
                }
            }
            k += 1;
        }
        proof {
            assert forall|t: u32, e: u32| #[trigger] scan.contains((t, e)) implies discovered@.contains(e) by {
                assert(pairs@.to_set().contains((t, e)));
                let j = choose|j: int| 0 <= j < pairs@.len() && pairs@[j] == (t, e);
                assert(discovered@.contains(pairs@[j].1));
            }
        }
        let ghost old_index = index@;
        if pairs.len() > 0 {
            proof {
                assert(pairs@.to_set().contains(pairs@[0]));
            }
            index.push((s, pairs));
        } else {
            proof {
                assert(scan =~= Set::<(u32, u32)>::empty());
            }
        }
        proof {
            vstd::set_lib::lemma_len_subset(processed.insert(s), dom);
            processed = processed.insert(s);
            assert forall|p: u32|
                processed.contains(p) && scan_set(trans, vocab, ks, p) != Set::<(u32, u32)>::empty()
                implies exists|i: int| 0 <= i < index@.len() && (#[trigger] index@[i]).0 == p by {
                if p == s {
                    assert(index@[index@.len() - 1].0 == s);
                } else {
                    let i = choose|i: int| 0 <= i < old_index.len() && (#[trigger] old_index[i]).0 == p;
                    assert(index@[i] == old_index[i]);
                }
            }
        }
    }
    proof {
        assert forall|x: u32| discovered@.contains(x) implies processed.contains(x) by {
            if stack@.contains(x) {
                let q = choose|q: int| 0 <= q < stack@.len() && stack@[q] == x;
            }
        }
        assert forall|x: u32| processed.contains(x) implies reachable(trans, vocab, ks, init, x) by {
            assert(discovered@.contains(x));
        }
        lemma_finished_index(trans, vocab, ks, init, processed, index@);
    }
    index
}

} // verus!
