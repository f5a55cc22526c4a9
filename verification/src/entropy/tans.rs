use crate::entropy::rans::count_in;
use vstd::prelude::*;

verus! {

/// A symbol of a tANS alphabet with its frequency and start.
pub struct TansSymbol {
    pub symbol: u8,
    pub freq: u16,
    pub start: u16,
}

/// A tANS decoding table of `table_size` slots: the symbol of each slot and the state it
/// leads to.
pub struct TansTable {
    pub table_size: usize,
    pub state_table: Vec<u16>,
    pub symbol_table: Vec<u8>,
}

/// The slots the symbols take in order: each symbol repeated as often as its frequency.
pub open spec fn slot_symbols(symbols: Seq<TansSymbol>) -> Seq<u8>
    decreases symbols.len(),
{
    if symbols.len() == 0 {
        Seq::empty()
    } else {
        slot_symbols(symbols.drop_last()) + Seq::new(
            symbols.last().freq as nat,
            |i: int| symbols.last().symbol,
        )
    }
}

/// The first state of symbol value `s`: the frequency of the last entry with that value,
/// or 0.
pub open spec fn first_state(symbols: Seq<TansSymbol>, s: u8) -> nat
    decreases symbols.len(),
{
    if symbols.len() == 0 {
        0
    } else if symbols.last().symbol == s {
        symbols.last().freq as nat
    } else {
        first_state(symbols.drop_last(), s)
    }
}

/// The slots that are filled in a table of `size`.
pub open spec fn filled(symbols: Seq<TansSymbol>, size: nat) -> Seq<u8> {
    let all = slot_symbols(symbols);
    if all.len() <= size {
        all
    } else {
        all.take(size as int)
    }
}

/// The table can be built: every symbol value's state counter stays within 16 bits.
pub open spec fn tans_fits(symbols: Seq<TansSymbol>, size: nat) -> bool {
    forall|s: u8| #[trigger] first_state(symbols, s) + count_in(filled(symbols, size), s) <= u16::MAX
}

/// The symbol table: each filled slot's symbol, then zeros.
pub open spec fn symbol_slots(symbols: Seq<TansSymbol>, size: nat) -> Seq<u8> {
    let f = filled(symbols, size);
    Seq::new(size, |i: int| if i < f.len() { f[i] } else { 0u8 })
}

/// The state table: a filled slot leads to its symbol's first state plus how many earlier
/// slots hold the same symbol; the rest are zeros.
pub open spec fn state_slots(symbols: Seq<TansSymbol>, size: nat) -> Seq<u16> {
    let f = filled(symbols, size);
    Seq::new(
        size,
        |i: int|
            if i < f.len() {
                (first_state(symbols, f[i]) + count_in(f.take(i), f[i])) as u16
            } else {
                0u16
            },
    )
}

proof fn lemma_first_state_step(symbols: Seq<TansSymbol>, j: int, s: u8)
    requires
        0 <= j < symbols.len(),
    ensures
        first_state(symbols.take(j + 1), s) == if symbols[j].symbol == s {
            symbols[j].freq as nat
        } else {
            first_state(symbols.take(j), s)
        },
{
    assert(symbols.take(j + 1).drop_last() =~= symbols.take(j));
}

proof fn lemma_slots_step(symbols: Seq<TansSymbol>, j: int)
    requires
        0 <= j < symbols.len(),
    ensures
        slot_symbols(symbols.take(j + 1)) == slot_symbols(symbols.take(j)) + Seq::new(
            symbols[j].freq as nat,
            |i: int| symbols[j].symbol,
        ),
{
    assert(symbols.take(j + 1).drop_last() =~= symbols.take(j));
}

proof fn lemma_count_prefix(s: Seq<u8>, i: int, b: u8)
    requires
        0 <= i < s.len(),
    ensures
        count_in(s.take(i + 1), b) == count_in(s.take(i), b) + if s[i] == b {
            1nat
        } else {
            0nat
        },
{
    assert(s.take(i + 1).drop_last() =~= s.take(i));
}

proof fn lemma_count_mono(s: Seq<u8>, i: int, j: int, b: u8)
    requires
        0 <= i <= j <= s.len(),
    ensures
        count_in(s.take(i), b) <= count_in(s.take(j), b),
    decreases j - i,
{
    if i < j {
        lemma_count_mono(s, i, j - 1, b);
        lemma_count_prefix(s, j - 1, b);
    }
}

proof fn lemma_slots_split(symbols: Seq<TansSymbol>, j: int)
    requires
        0 <= j <= symbols.len(),
    ensures
        slot_symbols(symbols) == slot_symbols(symbols.take(j)) + slot_symbols(symbols.skip(j)),
    decreases symbols.len(),
{
    if j == symbols.len() {
        assert(symbols.take(j) =~= symbols);
        assert(symbols.skip(j).len() == 0);
        assert(slot_symbols(symbols.skip(j)) =~= Seq::<u8>::empty());
        assert(slot_symbols(symbols) + Seq::<u8>::empty() =~= slot_symbols(symbols));
    } else {
        let d = symbols.drop_last();
        lemma_slots_split(d, j);
        assert(d.take(j) =~= symbols.take(j));
        assert(symbols.skip(j).drop_last() =~= d.skip(j));
        assert(symbols.skip(j).last() == symbols.last());
        assert(slot_symbols(symbols) =~= slot_symbols(symbols.take(j)) + slot_symbols(symbols.skip(j)));
    }
}

/// The slot at `lj + c` holds symbol `j`, where `lj` slots precede the symbol's own.
proof fn lemma_slot_at(symbols: Seq<TansSymbol>, j: int, c: int)
    requires
        0 <= j < symbols.len(),
        0 <= c < symbols[j].freq,
    ensures
        slot_symbols(symbols.take(j)).len() + c < slot_symbols(symbols).len(),
        slot_symbols(symbols)[slot_symbols(symbols.take(j)).len() + c] == symbols[j].symbol,
        slot_symbols(symbols.take(j + 1)).len() == slot_symbols(symbols.take(j)).len() + symbols[j].freq,
{
    lemma_slots_split(symbols, j + 1);
    lemma_slots_step(symbols, j);
    let a = slot_symbols(symbols.take(j));
    let rep = Seq::new(symbols[j].freq as nat, |i: int| symbols[j].symbol);
    assert(slot_symbols(symbols.take(j + 1)) == a + rep);
    assert(slot_symbols(symbols)[a.len() + c] == (a + rep)[a.len() + c]);
}

impl TansTable {
    /// Builds a table of `2^bits` slots: the symbols fill the slots in order, each as often
    /// as its frequency, until the table is full; each filled slot's state is its symbol's
    /// first state plus how many earlier slots hold the same symbol.
    pub fn new(symbols: &[TansSymbol], bits: u8) -> (r: Self)
        requires
            bits < 32,
            tans_fits(symbols@, pow2_usize(bits)),
        ensures
            r.table_size == pow2_usize(bits),
            r.symbol_table@ == symbol_slots(symbols@, r.table_size as nat),
            r.state_table@ == state_slots(symbols@, r.table_size as nat),
    {
        proof {
            lemma_pow2_usize(bits);
        }
        let table_size: usize = 1usize << (bits as usize);
        let mut next_state: Vec<u16> = Vec::new();
        let mut k: usize = 0;
        while k < 256
            invariant
                k <= 256,
                next_state@.len() == k,
                forall|b: int| 0 <= b < k ==> #[trigger] next_state@[b] == 0,
            decreases 256 - k,
        {
            next_state.push(0);
            k = k + 1;
        }
        proof {
            assert forall|b: int| 0 <= b < 256 implies #[trigger] next_state@[b] == first_state(
                symbols@.take(0),
                b as u8,
            ) by {
                assert(symbols@.take(0).len() == 0);
            }
        }
        let mut j: usize = 0;
        while j < symbols.len()
            invariant
                j <= symbols@.len(),
                next_state@.len() == 256,
                forall|b: int| 0 <= b < 256 ==> #[trigger] next_state@[b] == first_state(symbols@.take(j as int), b as u8),
            decreases symbols@.len() - j,
        {
            let sym = &symbols[j];
            proof {
                assert forall|b: int| 0 <= b < 256 implies #[trigger] first_state(symbols@.take(j + 1), b as u8)
                    == if sym.symbol == b as u8 {
                    sym.freq as nat
                } else {
                    first_state(symbols@.take(j as int), b as u8)
                } by {
                    lemma_first_state_step(symbols@, j as int, b as u8);
                }
            }
            next_state.set(sym.symbol as usize, sym.freq);
            j = j + 1;
        }
        proof {
            assert(symbols@.take(symbols@.len() as int) =~= symbols@);
        }
        let ghost all = slot_symbols(symbols@);
        let ghost f = filled(symbols@, table_size as nat);
        proof {
            assert forall|b: int| 0 <= b < 256 implies #[trigger] next_state@[b] == first_state(symbols@, b as u8)
                + count_in(all.take(0), b as u8) by {
                assert(all.take(0).len() == 0);
            }
            lemma_slots_split(symbols@, 0);
        }
        let mut symbol_table: Vec<u8> = Vec::new();
        let mut state_table: Vec<u16> = Vec::new();
        let mut pos: usize = 0;
        let mut j: usize = 0;
        while j < symbols.len()
            invariant
                j <= symbols@.len(),
                table_size == pow2_usize(bits),
                tans_fits(symbols@, table_size as nat),
                all == slot_symbols(symbols@),
                f == filled(symbols@, table_size as nat),
                next_state@.len() == 256,
                pos <= table_size,
                pos <= all.len(),
                pos < table_size ==> pos == slot_symbols(symbols@.take(j as int)).len(),
                pos == table_size ==> slot_symbols(symbols@.take(j as int)).len() >= table_size,
                symbol_table@ == all.take(pos as int),
                state_table@.len() == pos,
                forall|i: int| 0 <= i < pos ==> #[trigger] state_table@[i] == (first_state(symbols@, all[i]) + count_in(
                    all.take(i),
                    all[i],
                )) as u16,
                forall|b: int|
                    0 <= b < 256 ==> #[trigger] next_state@[b] == first_state(symbols@, b as u8) + count_in(
                        all.take(pos as int),
                        b as u8,
                    ),
            decreases symbols@.len() - j,
        {
            let sym = &symbols[j];
            let ghost lj = slot_symbols(symbols@.take(j as int)).len();
            proof {
                if sym.freq > 0 {
                    lemma_slot_at(symbols@, j as int, 0);
                } else {
                    lemma_slots_step(symbols@, j as int);
                }
            }
            let mut c: u16 = 0;
            while c < sym.freq && pos < table_size
                invariant
                    j < symbols@.len(),
                    sym == symbols@[j as int],
                    c <= sym.freq,
                    table_size == pow2_usize(bits),
                    tans_fits(symbols@, table_size as nat),
                    all == slot_symbols(symbols@),
                    f == filled(symbols@, table_size as nat),
                    lj == slot_symbols(symbols@.take(j as int)).len(),
                    next_state@.len() == 256,
                    pos <= table_size,
                    pos <= all.len(),
                    pos < table_size ==> pos == lj + c,
                    pos == table_size ==> lj + c >= table_size,
                    symbol_table@ == all.take(pos as int),
                    state_table@.len() == pos,
                    forall|i: int| 0 <= i < pos ==> #[trigger] state_table@[i] == (first_state(symbols@, all[i]) + count_in(
                        all.take(i),
                        all[i],
                    )) as u16,
                    forall|b: int|
                        0 <= b < 256 ==> #[trigger] next_state@[b] == first_state(symbols@, b as u8) + count_in(
                            all.take(pos as int),
                            b as u8,
                        ),
                decreases sym.freq - c,
            {
                let s = sym.symbol as usize;
                proof {
                    lemma_slot_at(symbols@, j as int, c as int);
                    assert(all[pos as int] == sym.symbol);
                    lemma_count_prefix(all, pos as int, sym.symbol);
                    let fl = f.len();
                    assert(fl >= pos + 1);
                    assert(f =~= all.take(fl as int));
                    lemma_count_mono(all, pos + 1, fl as int, sym.symbol);
                    assert(first_state(symbols@, sym.symbol) + count_in(f, sym.symbol) <= u16::MAX);
                }
                let v = next_state[s];
                symbol_table.push(sym.symbol);
                state_table.push(v);
                proof {
                    assert(symbol_table@ =~= all.take(pos + 1));
                    assert forall|b: int| 0 <= b < 256 implies #[trigger] count_in(all.take(pos + 1), b as u8) == count_in(
                        all.take(pos as int),
                        b as u8,
                    ) + if all[pos as int] == b as u8 {
                        1nat
                    } else {
                        0nat
                    } by {
                        lemma_count_prefix(all, pos as int, b as u8);
                    }
                }
                next_state.set(s, v + 1);
                pos = pos + 1;
                c = c + 1;
            }
            proof {
                lemma_slots_step(symbols@, j as int);
                if pos < table_size {
                    assert(c == sym.freq);
                }
            }
            j = j + 1;
        }
        proof {
            assert(symbols@.take(symbols@.len() as int) =~= symbols@);
            if pos < table_size {
                assert(pos == all.len());
                assert(f == all);
            } else {
                assert(f == all.take(table_size as int));
            }
            assert(f == all.take(pos as int));
            assert forall|i: int| 0 <= i < pos implies #[trigger] symbol_table@[i] == (if i < f.len() {
                f[i]
            } else {
                0u8
            }) by {}
            assert forall|i: int| 0 <= i < pos implies #[trigger] state_table@[i] == (if i < f.len() {
                (first_state(symbols@, f[i]) + count_in(f.take(i), f[i])) as u16
            } else {
                0u16
            }) by {
                assert(f.take(i) =~= all.take(i));
            }
        }
        while pos < table_size
            invariant
                pos <= table_size,
                f.len() <= pos,
                symbol_table@.len() == pos,
                state_table@.len() == pos,
                forall|i: int| 0 <= i < pos ==> #[trigger] symbol_table@[i] == (if i < f.len() { f[i] } else { 0u8 }),
                forall|i: int| 0 <= i < pos ==> #[trigger] state_table@[i] == (if i < f.len() {
                    (first_state(symbols@, f[i]) + count_in(f.take(i), f[i])) as u16
                } else {
                    0u16
                }),
            decreases table_size - pos,
        {
            symbol_table.push(0);
            state_table.push(0);
            pos = pos + 1;
        }
        proof {
            assert(symbol_table@ =~= symbol_slots(symbols@, table_size as nat));
            assert(state_table@ =~= state_slots(symbols@, table_size as nat));
        }
        TansTable { table_size, state_table, symbol_table }
    }

    /// One decoding step from `state`: the symbol of slot `state mod table_size`, and the
    /// state shifted right by 4 bits or'd with that slot's state.
    pub fn decode_step(&self, state: u32) -> (r: (u8, u32))
        requires
            self.table_size > 0,
            self.symbol_table@.len() == self.table_size,
            self.state_table@.len() == self.table_size,
        ensures
            r.0 == self.symbol_table@[(state as nat % self.table_size as nat) as int],
            r.1 == (state >> 4u32) | (self.state_table@[(state as nat % self.table_size as nat) as int] as u32),
    {
        let idx = (state as usize) % self.table_size;
        let sym = self.symbol_table[idx];
        let next_st = (state >> 4u32) | (self.state_table[idx] as u32);
        (sym, next_st)
    }
}

/// `2^bits` as a `usize`.
pub open spec fn pow2_usize(bits: u8) -> nat {
    vstd::arithmetic::power2::pow2(bits as nat)
}

proof fn lemma_pow2_usize(bits: u8)
    requires
        bits < 32,
    ensures
        (1usize << (bits as usize)) as nat == pow2_usize(bits),
        pow2_usize(bits) >= 1,
{
    vstd::arithmetic::power2::lemma2_to64();
    if bits < 31 {
        vstd::arithmetic::power2::lemma_pow2_strictly_increases(bits as nat, 31);
    }
    vstd::arithmetic::power2::lemma_pow2_pos(bits as nat);
    vstd::bits::lemma_usize_shl_is_mul(1, bits as usize);
}

} // verus!
