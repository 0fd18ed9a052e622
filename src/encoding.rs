//! Transition keys of characters, tokens and whole vocabularies.

use crate::automaton::{char_keys, entry_keys, symbol_key, symbols_view, text_set, vocab_view, FSMInfo};
use vstd::prelude::*;

verus! {

/// The key of the first symbol whose text is the single character `c`.
fn lookup_char(symbols: &Vec<(String, u32)>, anything: u32, c: char) -> (r: u32)
    ensures
        r == symbol_key(symbols_view(symbols@), seq![c], anything),
{
    let ghost syms = symbols_view(symbols@);
    let mut i: usize = 0;
    assert(syms.subrange(0, syms.len() as int) == syms);
    while i < symbols.len()
        invariant
            i <= symbols.len(),
            syms == symbols_view(symbols@),
            symbol_key(syms, seq![c], anything) == symbol_key(syms.subrange(i as int, syms.len() as int), seq![c], anything),
        decreases symbols.len() - i,
    {
        let text = symbols[i].0.as_str();
        proof {
            assert(syms.subrange(i as int, syms.len() as int).drop_first() == syms.subrange(i + 1, syms.len() as int));
            assert(syms[i as int].0 == text@);
        }
        if text.unicode_len() == 1 && text.get_char(0) == c {
            proof {
                assert(text@ == seq![c]);
            }
            return symbols[i].1;
        }
        proof {
            if text@ == seq![c] {
                assert(text@.len() == 1 && text@[0] == c);
            }
        }
        i += 1;
    }
    anything
}

/// The key of the first symbol whose text is `text`.
fn lookup_text(symbols: &Vec<(String, u32)>, anything: u32, text: &String) -> (r: u32)
    ensures
        r == symbol_key(symbols_view(symbols@), text@, anything),
{
    let ghost syms = symbols_view(symbols@);
    let mut i: usize = 0;
    assert(syms.subrange(0, syms.len() as int) == syms);
    while i < symbols.len()
        invariant
            i <= symbols.len(),
            syms == symbols_view(symbols@),
            symbol_key(syms, text@, anything) == symbol_key(syms.subrange(i as int, syms.len() as int), text@, anything),
        decreases symbols.len() - i,
    {
        proof {
            assert(syms.subrange(i as int, syms.len() as int).drop_first() == syms.subrange(i + 1, syms.len() as int));
        }
        if symbols[i].0 == *text {
            return symbols[i].1;
        }
        i += 1;
    }
    anything
}

/// The transition key of one character: its symbol's key, or the automaton's
/// "anything" key when the alphabet lacks it.
pub fn get_char_transition_key(fsm: &FSMInfo, c: char) -> (r: u32)
    ensures
        r == symbol_key(fsm.symbol_table(), seq![c], fsm.anything()),
{
    lookup_char(fsm.symbols(), fsm.alphabet_anything_value(), c)
}

/// The transition keys of a token's text, one per character.
pub fn get_token_transition_keys(fsm: &FSMInfo, token_str: &str) -> (r: Vec<u32>)
    ensures
        r@ == char_keys(fsm.symbol_table(), fsm.anything(), token_str@),
{
    let n = token_str.unicode_len();
    let mut keys: Vec<u32> = Vec::new();
    let mut i: usize = 0;
    while i < n
        invariant
            i <= n,
            n == token_str@.len(),
            keys@ == char_keys(fsm.symbol_table(), fsm.anything(), token_str@).take(i as int),
        decreases n - i,
    {
        let c = token_str.get_char(i);
        let k = get_char_transition_key(fsm, c);
        keys.push(k);
        proof {
            assert(keys@ =~= char_keys(fsm.symbol_table(), fsm.anything(), token_str@).take(i + 1));
        }
        i += 1;
    }
    proof {
        assert(keys@ =~= char_keys(fsm.symbol_table(), fsm.anything(), token_str@));
    }
    keys
}

fn is_frozen(frozen_tokens: &Vec<String>, text: &String) -> (r: bool)
    ensures
        r == text_set(frozen_tokens@).contains(text@),
{
    let mut i: usize = 0;
    while i < frozen_tokens.len()
        invariant
            i <= frozen_tokens.len(),
            forall|j: int| 0 <= j < i ==> frozen_tokens@[j]@ != text@,
        decreases frozen_tokens.len() - i,
    {
        if frozen_tokens[i] == *text {
            return true;
        }
        i += 1;
    }
    false
}

/// The key sequences of every vocabulary entry, in order. A frozen token is
/// looked up whole and gives a single key.
pub fn get_vocabulary_transition_keys(
    fsm: &FSMInfo,
    vocabulary: &Vec<(String, Vec<u32>)>,
    frozen_tokens: &Vec<String>,
) -> (r: Vec<Vec<u32>>)
    ensures
        r@.len() == vocabulary@.len(),
        forall|i: int|
            0 <= i < r@.len() ==> (#[trigger] r@[i])@ == entry_keys(
                fsm.symbol_table(),
                fsm.anything(),
                text_set(frozen_tokens@),
                vocab_view(vocabulary@)[i].0,
            ),
{
    let mut out: Vec<Vec<u32>> = Vec::new();
    let mut i: usize = 0;
    while i < vocabulary.len()
        invariant
            i <= vocabulary.len(),
            out@.len() == i,
            forall|j: int|
                0 <= j < i ==> (#[trigger] out@[j])@ == entry_keys(
                    fsm.symbol_table(),
                    fsm.anything(),
                    text_set(frozen_tokens@),
                    vocab_view(vocabulary@)[j].0,
                ),
        decreases vocabulary.len() - i,
    {
        let text = &vocabulary[i].0;
        let keys = if is_frozen(frozen_tokens, text) {
            let k = lookup_text(fsm.symbols(), fsm.alphabet_anything_value(), text);
            vec![k]
        } else {
            get_token_transition_keys(fsm, text.as_str())
        };
        out.push(keys);
        i += 1;
    }
    out
}

} // verus!
