//! Serialised Huffman tables: `u16 LE count`, then `(u16 LE symbol, u8 length) × count`.
use vstd::prelude::*;
use vstd::bytes::{
    spec_u16_to_le_bytes, spec_u16_from_le_bytes, u16_from_le_bytes,
    lemma_auto_spec_u16_to_from_le_bytes,
};
use vstd::slice::slice_subrange;
use crate::canon::{
    canon_entries, kraft_prefix, kraft_sum, valid_lengths, weight, is_canonical,
    lemma_canon_entries, lemma_canon_trailing, lemma_canonical_at, lemma_weight, lemma_kraft_by_symbol,
};
use crate::pm::sum_upto;
use crate::huffman::HuffmanTable;
use crate::{EngineError, ErrorView};

verus! {

/// The record of one entry: symbol (u16 LE), then length.
pub open spec fn record_bytes(e: (u16, u8)) -> Seq<u8> {
    spec_u16_to_le_bytes(e.0) + seq![e.1]
}

/// The records of the entries, one after the other.
pub open spec fn records_bytes(es: Seq<(u16, u8)>) -> Seq<u8>
    decreases es.len(),
{
    if es.len() == 0 {
        Seq::empty()
    } else {
        records_bytes(es.drop_last()) + record_bytes(es.last())
    }
}

/// A serialised table: the entry count (u16 LE), then the records.
pub open spec fn table_bytes(es: Seq<(u16, u8)>) -> Seq<u8> {
    spec_u16_to_le_bytes(es.len() as u16) + records_bytes(es)
}

/// The entry count stored in the first two bytes.
pub open spec fn table_count(d: Seq<u8>) -> u16 {
    spec_u16_from_le_bytes(d.subrange(0, 2))
}

/// The record stored at index `k`.
pub open spec fn record_at(d: Seq<u8>, k: int) -> (u16, u8) {
    (spec_u16_from_le_bytes(d.subrange(2 + 3 * k, 4 + 3 * k)), d[4 + 3 * k])
}

/// The `count` records stored after the count.
pub open spec fn stored_records(d: Seq<u8>, count: nat) -> Seq<(u16, u8)> {
    Seq::new(count, |k: int| record_at(d, k))
}

/// One more than the largest symbol of the records (0 when there are none).
pub open spec fn symbol_span(es: Seq<(u16, u8)>) -> nat
    decreases es.len(),
{
    if es.len() == 0 {
        0
    } else {
        let p = symbol_span(es.drop_last());
        if p > es.last().0 as nat + 1 {
            p
        } else {
            es.last().0 as nat + 1
        }
    }
}

/// The length map of `size` symbols that the records describe; a later record
/// of a symbol overrides an earlier one.
pub open spec fn records_map(es: Seq<(u16, u8)>, size: nat) -> Seq<u8>
    decreases es.len(),
{
    if es.len() == 0 {
        Seq::new(size, |i: int| 0u8)
    } else {
        let m = records_map(es.drop_last(), size);
        if (es.last().0 as nat) < size {
            m.update(es.last().0 as int, es.last().1)
        } else {
            m
        }
    }
}

/// The length map of the records, up to the largest symbol.
pub open spec fn table_map(es: Seq<(u16, u8)>) -> Seq<u8> {
    records_map(es, symbol_span(es))
}

/// What deserialising `d` yields: the length map of the table and the number
/// of bytes it takes, or the error.
pub open spec fn parse_table(d: Seq<u8>) -> Result<(Seq<u8>, nat), ErrorView> {
    if d.len() < 2 {
        Err(ErrorView::DecompressError("table too short"@))
    } else {
        let count = table_count(d) as nat;
        let needed = 2 + 3 * count;
        if d.len() < needed {
            Err(ErrorView::DecompressError("truncated table"@))
        } else {
            let m = table_map(stored_records(d, count));
            if !valid_lengths(m) {
                Err(ErrorView::DecompressError("invalid Huffman table"@))
            } else {
                Ok((m, needed))
            }
        }
    }
}

// ───────────────────────────── lemmas ─────────────────────────────

proof fn lemma_records_bytes(es: Seq<(u16, u8)>)
    ensures
        records_bytes(es).len() == 3 * es.len(),
        forall|k: int|
            0 <= k < es.len() ==> #[trigger] records_bytes(es).subrange(3 * k, 3 * k + 3) == record_bytes(
                es[k],
            ),
    decreases es.len(),
{
    lemma_auto_spec_u16_to_from_le_bytes();
    if es.len() > 0 {
        let p = es.drop_last();
        lemma_records_bytes(p);
        let r = records_bytes(es);
        assert(r == records_bytes(p) + record_bytes(es.last()));
        assert forall|k: int| 0 <= k < es.len() implies #[trigger] r.subrange(3 * k, 3 * k + 3)
            == record_bytes(es[k]) by {
            if k < p.len() {
                assert(r.subrange(3 * k, 3 * k + 3) == records_bytes(p).subrange(3 * k, 3 * k + 3));
                assert(p[k] == es[k]);
            } else {
                assert(r.subrange(3 * k, 3 * k + 3) == record_bytes(es.last()));
            }
        }
    }
}

/// A table's records read back from its bytes, whatever follows them.
proof fn lemma_read_back(es: Seq<(u16, u8)>, rest: Seq<u8>)
    requires
        es.len() < 65536,
    ensures
        ({
            let d = table_bytes(es) + rest;
            &&& d.len() >= 2 + 3 * es.len()
            &&& table_count(d) == es.len()
            &&& stored_records(d, es.len()) == es
        }),
{
    lemma_auto_spec_u16_to_from_le_bytes();
    lemma_records_bytes(es);
    let d = table_bytes(es) + rest;
    let c = spec_u16_to_le_bytes(es.len() as u16);
    let r = records_bytes(es);
    assert(d.subrange(0, 2) == c);
    assert forall|k: int| 0 <= k < es.len() implies #[trigger] stored_records(d, es.len())[k] == es[k] by {
        let rb = record_bytes(es[k]);
        assert(r.subrange(3 * k, 3 * k + 3) == rb);
        assert(d.subrange(2 + 3 * k, 4 + 3 * k) == rb.subrange(0, 2));
        assert(rb.subrange(0, 2) == spec_u16_to_le_bytes(es[k].0));
        assert(d[4 + 3 * k] == rb[2]);
    }
    assert(stored_records(d, es.len()) == es);
}

proof fn lemma_symbol_span(es: Seq<(u16, u8)>)
    ensures
        symbol_span(es) <= 65536,
        forall|k: int| 0 <= k < es.len() ==> (#[trigger] es[k].0 as nat) < symbol_span(es),
        es.len() > 0 ==> exists|k: int| 0 <= k < es.len() && symbol_span(es) == #[trigger] es[k].0 as nat + 1,
    decreases es.len(),
{
    if es.len() > 0 {
        let p = es.drop_last();
        lemma_symbol_span(p);
        assert forall|k: int| 0 <= k < es.len() implies (#[trigger] es[k].0 as nat) < symbol_span(es) by {
            if k < p.len() {
                assert(p[k] == es[k]);
            }
        }
        if symbol_span(p) > es.last().0 as nat + 1 {
            let k = choose|k: int| 0 <= k < p.len() && symbol_span(p) == #[trigger] p[k].0 as nat + 1;
            assert(p[k] == es[k]);
        } else {
            assert(es[es.len() - 1] == es.last());
        }
    }
}

/// With distinct symbols, each record's symbol gets its length and every other
/// symbol gets 0.
proof fn lemma_records_map(es: Seq<(u16, u8)>, size: nat)
    requires
        forall|j: int, k: int| 0 <= j < k < es.len() ==> #[trigger] es[j].0 != #[trigger] es[k].0,
    ensures
        records_map(es, size).len() == size,
        forall|k: int|
            0 <= k < es.len() && (es[k].0 as nat) < size ==> #[trigger] records_map(es, size)[es[k].0 as int]
                == es[k].1,
        forall|s: int|
            0 <= s < size && (forall|k: int| 0 <= k < es.len() ==> #[trigger] es[k].0 != s) ==> records_map(
                es,
                size,
            )[s] == 0,
    decreases es.len(),
{
    if es.len() > 0 {
        let p = es.drop_last();
        assert forall|j: int, k: int| 0 <= j < k < p.len() implies #[trigger] p[j].0 != #[trigger] p[k].0 by {
            assert(p[j] == es[j] && p[k] == es[k]);
        }
        lemma_records_map(p, size);
        let m = records_map(es, size);
        let last = es.last();
        assert(es[es.len() - 1] == last);
        assert forall|k: int| 0 <= k < es.len() && (es[k].0 as nat) < size implies #[trigger] m[es[k].0 as int]
            == es[k].1 by {
            if k < p.len() {
                assert(p[k] == es[k]);
                assert(es[k].0 != last.0);
            }
        }
        assert forall|s: int| 0 <= s < size && (forall|k: int| 0 <= k < es.len() ==> #[trigger] es[k].0 != s)
            implies m[s] == 0 by {
            assert forall|k: int| 0 <= k < p.len() implies #[trigger] p[k].0 != s by {
                assert(p[k] == es[k]);
            }
            assert(es[es.len() - 1].0 != s);
        }
    }
}

/// Reading back the entries of a valid length map gives a valid map with the
/// same canonical entries.
pub proof fn lemma_table_map(m: Seq<u8>)
    requires
        valid_lengths(m),
    ensures
        valid_lengths(table_map(canon_entries(m))),
        canon_entries(table_map(canon_entries(m))) == canon_entries(m),
{
    let e = canon_entries(m);
    lemma_canon_entries(m);
    assert forall|j: int, k: int| 0 <= j < k < e.len() implies #[trigger] e[j].0 != #[trigger] e[k].0 by {
        lemma_canonical_at(e, j, k);
    }
    lemma_symbol_span(e);
    let span = symbol_span(e);
    lemma_records_map(e, span);
    let t = table_map(e);
    if e.len() > 0 {
        let k = choose|k: int| 0 <= k < e.len() && span == #[trigger] e[k].0 as nat + 1;
        assert(span <= m.len());
    }
    assert forall|i: int| 0 <= i < t.len() implies t[i] == m[i] by {
        if exists|k: int| 0 <= k < e.len() && #[trigger] e[k].0 == i {
            let k = choose|k: int| 0 <= k < e.len() && #[trigger] e[k].0 == i;
        } else {
            if m[i] > 0 {
                let k = choose|k: int| 0 <= k < e.len() && #[trigger] e[k].0 == i;
            }
        }
    }
    assert forall|i: int| t.len() <= i < m.len() implies m[i] == 0 by {
        if m[i] > 0 {
            let k = choose|k: int| 0 <= k < e.len() && #[trigger] e[k].0 == i;
        }
    }
    lemma_canon_trailing(m, t);
}

/// The entry count of a table fits in its Kraft sum.
pub proof fn lemma_count_fits(e: Seq<(u16, u8)>, k: nat)
    requires
        is_canonical(e),
        k <= e.len(),
    ensures
        kraft_prefix(e, k) >= k,
    decreases k,
{
    if k > 0 {
        lemma_count_fits(e, (k - 1) as nat);
        lemma_canonical_at(e, k - 1, k - 1);
        lemma_weight(e[k - 1].1);
    }
}

/// A serialised valid table deserialises to a table with the same entries,
/// taking exactly its own bytes.
pub proof fn lemma_table_round_trip(m: Seq<u8>, rest: Seq<u8>)
    requires
        valid_lengths(m),
    ensures
        ({
            let e = canon_entries(m);
            parse_table(table_bytes(e) + rest) matches Ok((m2, n)) && canon_entries(m2) == e && n == 2 + 3
                * e.len() && n == table_bytes(e).len()
        }),
{
    let e = canon_entries(m);
    lemma_canon_entries(m);
    lemma_count_fits(e, e.len());
    lemma_read_back(e, rest);
    lemma_table_map(m);
    lemma_records_bytes(e);
    lemma_auto_spec_u16_to_from_le_bytes();
}

// ───────────────────────────── executable ─────────────────────────────

/// Sum of `2^(15 - len)` over the coded symbols, or `None` when a length
/// exceeds 15.
fn kraft_total(m: &Vec<u8>) -> (r: Option<u64>)
    requires
        m@.len() <= 65536,
    ensures
        match r {
            Some(total) => (forall|i: int| 0 <= i < m@.len() ==> #[trigger] m@[i] <= 15) && total
                == kraft_sum(canon_entries(m@)),
            None => exists|i: int| 0 <= i < m@.len() && #[trigger] m@[i] > 15,
        },
{
    let ghost f = |x: nat|
        if 1 <= m@[x as int] {
            weight(m@[x as int]) as int
        } else {
            0int
        };
    let mut total: u64 = 0;
    let mut i: usize = 0;
    while i < m.len()
        invariant
            i <= m@.len() <= 65536,
            forall|j: int| 0 <= j < i ==> #[trigger] m@[j] <= 15,
            f == (|x: nat|
                if 1 <= m@[x as int] {
                    weight(m@[x as int]) as int
                } else {
                    0int
                }),
            total == sum_upto(f, i as nat),
            total <= 32768 * i,
        decreases m@.len() - i,
    {
        let len = m[i];
        if len > 15 {
            return None;
        }
        let ghost prev = total;
        if len >= 1 {
            proof {
                lemma_weight(len);
                vstd::bits::lemma_u64_shl_is_mul(1u64, (15 - len) as u64);
                assert(((15 - len) as u64) as nat == (15 - len) as nat);
            }
            total = total + (1u64 << ((15 - len) as u64));
            assert(total == prev + weight(len));
        }
        assert(f(i as nat) == total - prev);
        i += 1;
    }
    proof {
        lemma_kraft_by_symbol(m@);
    }
    Some(total)
}

/// Deserialise a Huffman table from `data[offset..]`.
/// Returns `(table, bytes_consumed)`.
pub fn deserialise_table(data: &[u8]) -> (r: Result<(HuffmanTable, usize), EngineError>)
    ensures
        match parse_table(data@) {
            Ok((m, n)) => r matches Ok((t, used)) && t.decodable() && t.entries() == canon_entries(m)
                && t.symbols() == m.len() && used == n,
            Err(ev) => r matches Err(err) && err@ == ev,
        },
{
    if data.len() < 2 {
        return Err(EngineError::DecompressError("table too short".to_owned()));
    }
    let count = u16_from_le_bytes(slice_subrange(data, 0, 2)) as usize;
    let needed = 2 + count * 3;
    if data.len() < needed {
        return Err(EngineError::DecompressError("truncated table".to_owned()));
    }
    let ghost es = stored_records(data@, count as nat);
    let mut max_sym: usize = 0;
    let mut i: usize = 0;
    while i < count
        invariant
            i <= count,
            count < 65536,
            2 + 3 * count <= data@.len(),
            es == stored_records(data@, count as nat),
            max_sym == symbol_span(es.take(i as int)),
        decreases count - i,
    {
        let base = 2 + i * 3;
        let sym = u16_from_le_bytes(slice_subrange(data, base, base + 2)) as usize;
        proof {
            assert(es.take(i + 1).drop_last() == es.take(i as int));
            assert(es.take(i + 1).last() == es[i as int]);
            assert(data@.subrange(base as int, base + 2) == data@.subrange(2 + 3 * i, 4 + 3 * i));
        }
        if sym + 1 > max_sym {
            max_sym = sym + 1;
        }
        i += 1;
    }
    assert(es.take(count as int) == es);
    let mut lengths_map: Vec<u8> = Vec::new();
    let mut j: usize = 0;
    while j < max_sym
        invariant
            j <= max_sym,
            lengths_map@ == Seq::new(j as nat, |x: int| 0u8),
        decreases max_sym - j,
    {
        lengths_map.push(0);
        j += 1;
        assert(lengths_map@ =~= Seq::new(j as nat, |x: int| 0u8));
    }
    let mut i: usize = 0;
    while i < count
        invariant
            i <= count,
            count < 65536,
            2 + 3 * count <= data@.len(),
            es == stored_records(data@, count as nat),
            max_sym == symbol_span(es),
            lengths_map@ == records_map(es.take(i as int), max_sym as nat),
        decreases count - i,
    {
        let base = 2 + i * 3;
        let sym = u16_from_le_bytes(slice_subrange(data, base, base + 2)) as usize;
        let len = data[base + 2];
        proof {
            assert(es.take(i + 1).drop_last() == es.take(i as int));
            assert(es.take(i + 1).last() == es[i as int]);
            assert(data@.subrange(base as int, base + 2) == data@.subrange(2 + 3 * i, 4 + 3 * i));
            lemma_records_map_len(es.take(i as int), max_sym as nat);
        }
        if sym < lengths_map.len() {
            lengths_map.set(sym, len);
        }
        i += 1;
    }
    assert(es.take(count as int) == es);
    proof {
        lemma_symbol_span(es);
        lemma_records_map_len(es, max_sym as nat);
    }
    let total = kraft_total(&lengths_map);
    match total {
        Some(k) => {
            if k > 32768 {
                return Err(EngineError::DecompressError("invalid Huffman table".to_owned()));
            }
        },
        None => {
            return Err(EngineError::DecompressError("invalid Huffman table".to_owned()));
        },
    }
    let table = HuffmanTable::from_lengths(&lengths_map);
    Ok((table, needed))
}

proof fn lemma_records_map_len(es: Seq<(u16, u8)>, size: nat)
    ensures
        records_map(es, size).len() == size,
    decreases es.len(),
{
    if es.len() > 0 {
        lemma_records_map_len(es.drop_last(), size);
    }
}

} // verus!
