//! Automaton descriptors, transition keys and the automaton walk.

use std::collections::HashMap;
use std::collections::HashSet;
use vstd::prelude::*;

verus! {

broadcast use vstd::std_specs::hash::group_hash_axioms;

/// Multiplier that places a state id above the 32 bits of a transition key.
pub const KEY_SPAN: u64 = 4294967296;

/// The `u64` under which the transition `(state, key)` is stored.
pub open spec fn pack(state: u32, key: u32) -> u64 {
    (state as int * 4294967296 + key as int) as u64
}

proof fn lemma_pack_injective(s1: u32, k1: u32, s2: u32, k2: u32)
    ensures
        pack(s1, k1) == pack(s2, k2) ==> s1 == s2 && k1 == k2,
{
    assert(0 <= s1 as int * 4294967296 + k1 as int <= u64::MAX) by (nonlinear_arith);
    assert(0 <= s2 as int * 4294967296 + k2 as int <= u64::MAX) by (nonlinear_arith);
    if pack(s1, k1) == pack(s2, k2) {
        assert(s1 as int * 4294967296 + k1 as int == s2 as int * 4294967296 + k2 as int);
        assert(s1 == s2 && k1 == k2) by (nonlinear_arith)
            requires
                s1 as int * 4294967296 + k1 as int == s2 as int * 4294967296 + k2 as int,
                0 <= k1 < 4294967296,
                0 <= k2 < 4294967296,
        ;
    }
}

fn pack_exec(state: u32, key: u32) -> (r: u64)
    ensures
        r == pack(state, key),
{
    assert(0 <= state as int * 4294967296 + key as int <= u64::MAX) by (nonlinear_arith);
    (state as u64) * KEY_SPAN + (key as u64)
}

/// The transition table given as a list of `((state, key), destination)`
/// entries: a later entry for the same pair replaces an earlier one.
pub open spec fn table_of(entries: Seq<((u32, u32), u32)>) -> Map<(u32, u32), u32>
    decreases entries.len(),
{
    if entries.len() == 0 {
        Map::empty()
    } else {
        let e = entries.last();
        table_of(entries.drop_last()).insert(e.0, e.1)
    }
}

/// The symbol table as `(text, key)` pairs.
pub open spec fn symbols_view(syms: Seq<(String, u32)>) -> Seq<(Seq<char>, u32)> {
    syms.map_values(|e: (String, u32)| (e.0@, e.1))
}

/// The key of a symbol text: the key of its first entry, or `anything`
/// where the text has none.
pub open spec fn symbol_key(syms: Seq<(Seq<char>, u32)>, text: Seq<char>, anything: u32) -> u32
    decreases syms.len(),
{
    if syms.len() == 0 {
        anything
    } else if syms[0].0 == text {
        syms[0].1
    } else {
        symbol_key(syms.drop_first(), text, anything)
    }
}

/// One key per character of `text`.
pub open spec fn char_keys(syms: Seq<(Seq<char>, u32)>, anything: u32, text: Seq<char>) -> Seq<u32> {
    Seq::new(text.len(), |i: int| symbol_key(syms, seq![text[i]], anything))
}

/// The key sequence of a vocabulary entry: a frozen text is one symbol.
pub open spec fn entry_keys(
    syms: Seq<(Seq<char>, u32)>,
    anything: u32,
    frozen: Set<Seq<char>>,
    text: Seq<char>,
) -> Seq<u32> {
    if frozen.contains(text) {
        seq![symbol_key(syms, text, anything)]
    } else {
        char_keys(syms, anything, text)
    }
}

/// The texts of a list of frozen tokens.
pub open spec fn text_set(tokens: Seq<String>) -> Set<Seq<char>> {
    Set::new(|t: Seq<char>| exists|i: int| 0 <= i < tokens.len() && tokens[i]@ == t)
}

/// The vocabulary as `(text, token ids)` pairs.
pub open spec fn vocab_view(vocab: Seq<(String, Vec<u32>)>) -> Seq<(Seq<char>, Seq<u32>)> {
    vocab.map_values(|e: (String, Vec<u32>)| (e.0@, e.1@))
}

/// The states visited while consuming `keys` from `start`, one per key, up to
/// the first key without a transition.
pub open spec fn walk_states(trans: Map<(u32, u32), u32>, keys: Seq<u32>, start: u32) -> Seq<u32>
    decreases keys.len(),
{
    if keys.len() == 0 {
        seq![]
    } else {
        let prev = walk_states(trans, keys.drop_last(), start);
        let cur = if prev.len() == 0 { start } else { prev.last() };
        if prev.len() == keys.len() - 1 && trans.contains_key((cur, keys.last())) {
            prev.push(trans[(cur, keys.last())])
        } else {
            prev
        }
    }
}

/// The state in which `keys` ends when every key is consumed from `start`.
pub open spec fn walk_end(trans: Map<(u32, u32), u32>, keys: Seq<u32>, start: u32) -> Option<u32> {
    let w = walk_states(trans, keys, start);
    if w.len() == keys.len() {
        Some(if keys.len() == 0 { start } else { w.last() })
    } else {
        None
    }
}

pub proof fn lemma_walk_len(trans: Map<(u32, u32), u32>, keys: Seq<u32>, start: u32)
    ensures
        walk_states(trans, keys, start).len() <= keys.len(),
    decreases keys.len(),
{
    if keys.len() > 0 {
        lemma_walk_len(trans, keys.drop_last(), start);
    }
}

/// Once a walk is stuck, further keys change nothing.
pub proof fn lemma_walk_stuck(trans: Map<(u32, u32), u32>, keys: Seq<u32>, start: u32, i: int, j: int)
    requires
        0 <= i <= j <= keys.len(),
        walk_states(trans, keys.take(i), start).len() < i,
    ensures
        walk_states(trans, keys.take(j), start) == walk_states(trans, keys.take(i), start),
    decreases j - i,
{
    if j > i {
        lemma_walk_stuck(trans, keys, start, i, j - 1);
        assert(keys.take(j).drop_last() == keys.take(j - 1));
    }
}

/// Every state of a walk is the destination of some transition.
pub proof fn lemma_walk_in_values(trans: Map<(u32, u32), u32>, keys: Seq<u32>, start: u32)
    ensures
        forall|k: int|
            0 <= k < walk_states(trans, keys, start).len() ==> trans.values().contains(
                #[trigger] walk_states(trans, keys, start)[k],
            ),
    decreases keys.len(),
{
    if keys.len() > 0 {
        lemma_walk_in_values(trans, keys.drop_last(), start);
        let prev = walk_states(trans, keys.drop_last(), start);
        let cur = if prev.len() == 0 { start } else { prev.last() };
        if prev.len() == keys.len() - 1 && trans.contains_key((cur, keys.last())) {
            assert(trans.values().contains(trans[(cur, keys.last())]));
        }
    }
}

/// A deterministic automaton: its initial state, accepting states, transition
/// table and alphabet.
pub struct FSMInfo {
    initial: u32,
    finals: HashSet<u32>,
    table: HashMap<u64, u32>,
    anything_value: u32,
    symbols: Vec<(String, u32)>,
}

impl FSMInfo {
    pub closed spec fn initial_state(&self) -> u32 {
        self.initial
    }

    pub closed spec fn final_states(&self) -> Set<u32> {
        self.finals@
    }

    /// The transition table: `(state, key)` to destination state.
    pub closed spec fn transitions(&self) -> Map<(u32, u32), u32> {
        Map::new(
            |p: (u32, u32)| self.table@.contains_key(pack(p.0, p.1)),
            |p: (u32, u32)| self.table@[pack(p.0, p.1)],
        )
    }

    pub closed spec fn anything(&self) -> u32 {
        self.anything_value
    }

    /// The alphabet's symbols as `(text, key)` pairs, searched front to back.
    pub closed spec fn symbol_table(&self) -> Seq<(Seq<char>, u32)> {
        symbols_view(self.symbols@)
    }

    /// The states any walk can reach: the initial one and every destination.
    pub closed spec fn state_domain(&self) -> Set<u32> {
        self.table@.values().insert(self.initial)
    }

    pub proof fn lemma_state_domain(&self)
        ensures
            self.state_domain().finite(),
            self.state_domain().contains(self.initial_state()),
            forall|v: u32| self.transitions().values().contains(v) ==> self.state_domain().contains(v),
    {
        vstd::map_lib::lemma_values_finite(self.table@);
        assert forall|v: u32| self.transitions().values().contains(v) implies self.state_domain().contains(v) by {
            let p = choose|p: (u32, u32)| self.transitions().dom().contains(p) && self.transitions()[p] == v;
            assert(self.table@.dom().contains(pack(p.0, p.1)));
        }
    }

    /// Builds an automaton from its parts. A later transition entry for the
    /// same `(state, key)` pair replaces an earlier one.
    pub fn new(
        initial: u32,
        finals: HashSet<u32>,
        transitions: Vec<((u32, u32), u32)>,
        alphabet_anything_value: u32,
        alphabet_symbol_mapping: Vec<(String, u32)>,
    ) -> (r: FSMInfo)
        ensures
            r.initial_state() == initial,
            r.final_states() == finals@,
            r.transitions() == table_of(transitions@),
            r.anything() == alphabet_anything_value,
            r.symbol_table() == symbols_view(alphabet_symbol_mapping@),
    {
        let mut table: HashMap<u64, u32> = HashMap::new();
        let mut i: usize = 0;
        while i < transitions.len()
            invariant
                i <= transitions.len(),
                forall|p: (u32, u32)|
                    #![trigger table_of(transitions@.take(i as int)).contains_key(p)]
                    table@.contains_key(pack(p.0, p.1)) == table_of(transitions@.take(i as int)).contains_key(p)
                    && (table@.contains_key(pack(p.0, p.1)) ==> table@[pack(p.0, p.1)] == table_of(transitions@.take(i as int))[p]),
            decreases transitions.len() - i,
        {
            let ((s, k), d) = transitions[i];
            let key = pack_exec(s, k);
            let ghost before = table@;
            table.insert(key, d);
            proof {
                assert(transitions@.take(i + 1).drop_last() == transitions@.take(i as int));
                assert(table_of(transitions@.take(i + 1)) == table_of(transitions@.take(i as int)).insert((s, k), d));
                assert forall|p: (u32, u32)| #![trigger table_of(transitions@.take(i + 1)).contains_key(p)]
                    table@.contains_key(pack(p.0, p.1)) == table_of(transitions@.take(i + 1)).contains_key(p)
                    && (table@.contains_key(pack(p.0, p.1)) ==> table@[pack(p.0, p.1)] == table_of(transitions@.take(i + 1))[p]) by {
                    lemma_pack_injective(p.0, p.1, s, k);
                    assert(table_of(transitions@.take(i as int)).contains_key(p) == before.contains_key(pack(p.0, p.1)));
                }
            }
            i += 1;
        }
        let r = FSMInfo {
            initial,
            finals,
            table,
            anything_value: alphabet_anything_value,
            symbols: alphabet_symbol_mapping,
        };
        proof {
            assert(transitions@.take(transitions@.len() as int) == transitions@);
            assert(r.transitions() =~= table_of(transitions@));
        }
        r
    }

    pub fn initial(&self) -> (r: u32)
        ensures
            r == self.initial_state(),
    {
        self.initial
    }

    pub fn finals(&self) -> (r: &HashSet<u32>)
        ensures
            r@ == self.final_states(),
    {
        &self.finals
    }

    pub fn symbols(&self) -> (r: &Vec<(String, u32)>)
        ensures
            symbols_view(r@) == self.symbol_table(),
    {
        &self.symbols
    }

    pub fn alphabet_anything_value(&self) -> (r: u32)
        ensures
            r == self.anything(),
    {
        self.anything_value
    }

    /// The destination of the transition from `state` on `key`, if there is one.
    pub fn next_state(&self, state: u32, key: u32) -> (r: Option<u32>)
        ensures
            r == (if self.transitions().contains_key((state, key)) {
                Some(self.transitions()[(state, key)])
            } else {
                None
            }),
    {
        let packed = pack_exec(state, key);
        match self.table.get(&packed) {
            Some(d) => Some(*d),
            None => None,
        }
    }
}

} // verus!
