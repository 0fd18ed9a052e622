//! General facts about key encoding, scanning and the index.

use crate::automaton::{entry_keys, symbol_key, walk_end, walk_states};
use crate::index::{index_model, index_view, lemma_lists_index_view, lists_index, reachable};
use crate::scan::{scan_set, walk_result};
use vstd::prelude::*;

verus! {

/// Two index builds over the same automaton, vocabulary and frozen tokens
/// stand for the same map from state to pairs, whatever order each one
/// visited the states in.
pub proof fn lemma_index_deterministic(
    trans: Map<(u32, u32), u32>,
    vocab: Seq<(Seq<char>, Seq<u32>)>,
    keys: Seq<Seq<u32>>,
    init: u32,
    first: Seq<(u32, Vec<(u32, u32)>)>,
    second: Seq<(u32, Vec<(u32, u32)>)>,
)
    requires
        lists_index(first, index_model(trans, vocab, keys, init)),
        lists_index(second, index_model(trans, vocab, keys, init)),
    ensures
        index_view(first) == index_view(second),
{
    lemma_lists_index_view(first, index_model(trans, vocab, keys, init));
    lemma_lists_index_view(second, index_model(trans, vocab, keys, init));
}

/// Every state listed in the index is reached from the initial state by a
/// sequence of tokens, each taken from the index entry of the state before.
pub proof fn lemma_index_states_reachable(
    trans: Map<(u32, u32), u32>,
    vocab: Seq<(Seq<char>, Seq<u32>)>,
    keys: Seq<Seq<u32>>,
    init: u32,
    entries: Seq<(u32, Vec<(u32, u32)>)>,
)
    requires
        lists_index(entries, index_model(trans, vocab, keys, init)),
    ensures
        forall|i: int| 0 <= i < entries.len() ==> reachable(trans, vocab, keys, init, (#[trigger] entries[i]).0),
{
    assert forall|i: int| 0 <= i < entries.len() implies reachable(trans, vocab, keys, init, (#[trigger] entries[i]).0) by {
        assert(index_model(trans, vocab, keys, init).contains_key(entries[i].0));
    }
}

/// For every `(state, token, end)` triple of the index, walking a key sequence
/// of that token from the state with `full_match` set ends in `end`. Holds
/// where no key sequence is empty: an empty one is consumed without a step.
pub proof fn lemma_index_round_trip(
    trans: Map<(u32, u32), u32>,
    vocab: Seq<(Seq<char>, Seq<u32>)>,
    keys: Seq<Seq<u32>>,
    init: u32,
    entries: Seq<(u32, Vec<(u32, u32)>)>,
)
    requires
        lists_index(entries, index_model(trans, vocab, keys, init)),
        forall|j: int| 0 <= j < keys.len() ==> (#[trigger] keys[j]).len() > 0,
    ensures
        forall|i: int, t: u32, e: u32|
            0 <= i < entries.len() && #[trigger] entries[i].1@.contains((t, e)) ==> exists|j: int|
                0 <= j < vocab.len() && j < keys.len() && vocab[j].1.contains(t) && walk_result(
                    trans,
                    #[trigger] keys[j],
                    entries[i].0,
                    true,
                ).len() > 0 && walk_result(trans, keys[j], entries[i].0, true).last() == e,
{
    assert forall|i: int, t: u32, e: u32|
        0 <= i < entries.len() && #[trigger] entries[i].1@.contains((t, e)) implies exists|j: int|
            0 <= j < vocab.len() && j < keys.len() && vocab[j].1.contains(t) && walk_result(
                trans,
                #[trigger] keys[j],
                entries[i].0,
                true,
            ).len() > 0 && walk_result(trans, keys[j], entries[i].0, true).last() == e by {
        let s = entries[i].0;
        assert(entries[i].1@.to_set().contains((t, e)));
        assert(scan_set(trans, vocab, keys, s).contains((t, e)));
        let j = choose|j: int|
            0 <= j < vocab.len() && j < keys.len() && vocab[j].1.contains(t) && walk_end(trans, keys[j], s) == Some(e);
        assert(keys[j].len() > 0);
    }
}

/// A token all of whose key sequences reach a dead end from `start` before
/// being consumed is absent from the scan of `start`, however many of its
/// keys were consumed.
pub proof fn lemma_dead_end_excluded(
    trans: Map<(u32, u32), u32>,
    vocab: Seq<(Seq<char>, Seq<u32>)>,
    keys: Seq<Seq<u32>>,
    start: u32,
    t: u32,
)
    requires
        forall|j: int|
            0 <= j < vocab.len() && j < keys.len() && #[trigger] vocab[j].1.contains(t) ==> walk_states(
                trans,
                keys[j],
                start,
            ).len() < keys[j].len(),
    ensures
        forall|e: u32| !(#[trigger] scan_set(trans, vocab, keys, start).contains((t, e))),
{
}

/// A frozen token has one key, looked up from its whole text, and is
/// consumed by a single transition.
pub proof fn lemma_frozen_single_edge(
    syms: Seq<(Seq<char>, u32)>,
    anything: u32,
    frozen: Set<Seq<char>>,
    text: Seq<char>,
    trans: Map<(u32, u32), u32>,
    start: u32,
)
    requires
        frozen.contains(text),
    ensures
        entry_keys(syms, anything, frozen, text) == seq![symbol_key(syms, text, anything)],
        walk_end(trans, entry_keys(syms, anything, frozen, text), start) == (if trans.contains_key(
            (start, symbol_key(syms, text, anything)),
        ) {
            Some(trans[(start, symbol_key(syms, text, anything))])
        } else {
            None::<u32>
        }),
{
    let k = symbol_key(syms, text, anything);
    let ks = seq![k];
    assert(ks.drop_last() =~= Seq::<u32>::empty());
    assert(walk_states(trans, Seq::<u32>::empty(), start) == Seq::<u32>::empty());
    if trans.contains_key((start, k)) {
        assert(walk_states(trans, ks, start) == seq![trans[(start, k)]]);
    } else {
        assert(walk_states(trans, ks, start) == Seq::<u32>::empty());
    }
}

} // verus!
