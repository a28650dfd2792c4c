//! Amplitudes and the symbols that they stand for: symbol `i` has the
//! amplitude `2 i + 1`.

use vstd::prelude::*;

verus! {

/// The symbol that an amplitude stands for: amplitude `2 i + 1` is symbol `i`.
pub open spec fn symbol_of(amplitude: usize) -> int {
    (amplitude - 1) / 2
}

/// The symbols that a sequence of amplitudes stands for.
pub open spec fn symbols_of(amplitudes: Seq<usize>) -> Seq<int> {
    Seq::new(amplitudes.len(), |k: int| symbol_of(amplitudes[k]))
}

/// Every entry of `amplitudes` is the amplitude of the symbol at its place in
/// `symbols`.
pub open spec fn is_amplitudes_of(amplitudes: Seq<usize>, symbols: Seq<int>) -> bool {
    &&& amplitudes.len() == symbols.len()
    &&& forall|k: int| 0 <= k < amplitudes.len() ==> #[trigger] amplitudes[k] == 2 * symbols[k] + 1
}

/// Every entry of `amplitudes` is odd.
pub open spec fn all_odd(amplitudes: Seq<usize>) -> bool {
    forall|k: int| 0 <= k < amplitudes.len() ==> #[trigger] amplitudes[k] % 2 == 1
}

/// Amplitudes of symbols are odd, and stand for these symbols.
pub proof fn lemma_amplitudes_of_symbols(amplitudes: Seq<usize>, symbols: Seq<int>)
    requires
        is_amplitudes_of(amplitudes, symbols),
    ensures
        all_odd(amplitudes),
        symbols_of(amplitudes) == symbols,
{
    assert forall|k: int| 0 <= k < amplitudes.len() implies #[trigger] amplitudes[k] % 2 == 1 by {
        assert(amplitudes[k] == 2 * symbols[k] + 1);
    }
    assert(symbols_of(amplitudes) =~= symbols) by {
        assert forall|k: int| 0 <= k < amplitudes.len() implies symbols_of(amplitudes)[k] == symbols[k] by {
            assert(amplitudes[k] == 2 * symbols[k] + 1);
        }
    }
}

/// Two sequences of amplitudes of the same symbols are the same.
pub proof fn lemma_amplitudes_unique(a: Seq<usize>, b: Seq<usize>, symbols: Seq<int>)
    requires
        is_amplitudes_of(a, symbols),
        is_amplitudes_of(b, symbols),
    ensures
        a == b,
{
    assert(a =~= b) by {
        assert forall|k: int| 0 <= k < a.len() implies a[k] == b[k] by {
            assert(a[k] == 2 * symbols[k] + 1);
            assert(b[k] == 2 * symbols[k] + 1);
        }
    }
}

/// Odd amplitudes are the amplitudes of the symbols that they stand for.
pub proof fn lemma_symbols_of_amplitudes(amplitudes: Seq<usize>)
    requires
        all_odd(amplitudes),
    ensures
        is_amplitudes_of(amplitudes, symbols_of(amplitudes)),
{
    assert forall|k: int| 0 <= k < amplitudes.len() implies #[trigger] amplitudes[k] == 2 * symbols_of(
        amplitudes,
    )[k] + 1 by {
        assert(amplitudes[k] % 2 == 1);
    }
}

} // verus!
