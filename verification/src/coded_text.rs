//! A text seen through a code table: the codes of its symbols, and what the
//! queries of a wavelet tree meet on the path of one symbol's code.

use vstd::prelude::*;
use crate::codex::{Codex, CODE_WIDTH};
use crate::counting::{
    is_binary, is_kth_occurrence, kth_occurrence, lemma_kth_occurrence_exists,
    lemma_kth_occurrence_unique, occurrences,
};
use crate::partition::{
    agrees, all_of_width, lemma_sieve_deeper, lemma_sieve_next, lemma_sieve_prefix_step,
    lemma_sieve_room, lemma_sieve_take, sieve,
};

verus! {

/// The codes of the symbols of `text`, in order.
pub open spec fn codes_of(text: Seq<char>, table: Map<char, Seq<u8>>) -> Seq<Seq<u8>> {
    Seq::new(text.len(), |j: int| table[text[j]])
}

/// Every symbol of `text` has a code in `table`.
pub open spec fn covers(table: Map<char, Seq<u8>>, text: Seq<char>) -> bool {
    forall|j: int| 0 <= j < text.len() ==> table.contains_key(#[trigger] text[j])
}

/// The codes of a text covered by a codex have its width, and are bits.
pub proof fn lemma_codes_of_shape(text: Seq<char>, codex: Codex)
    requires
        covers(codex@, text),
    ensures
        all_of_width(codes_of(text, codex@), CODE_WIDTH as int),
        codes_of(text, codex@).len() == text.len(),
{
    let codes = codes_of(text, codex@);
    assert forall|j: int| 0 <= j < codes.len() implies (#[trigger] codes[j]).len() == CODE_WIDTH
        && is_binary(codes[j]) by {
        assert(codex@.contains_key(text[j]));
        codex.lemma_code_shape(text[j]);
    }
}

/// Number of symbols of `text` whose code agrees with the code of `symbol`
/// on its first `depth` bits: the symbols that reach the node at depth
/// `depth` on the path of `symbol`.
pub open spec fn kindred(
    text: Seq<char>,
    table: Map<char, Seq<u8>>,
    symbol: char,
    depth: int,
) -> nat {
    sieve(codes_of(text, table), table[symbol], depth).len()
}

/// A rank query for `symbol` at `index` runs dry on its way down: below the
/// root there is a node on the path of `symbol` that some symbol of `text`
/// reaches, but none of the positions `0..=index`. The position handed to
/// that node would lie before its first bit.
pub open spec fn starved(
    text: Seq<char>,
    table: Map<char, Seq<u8>>,
    symbol: char,
    index: int,
) -> bool {
    exists|depth: int|
        1 <= depth < table[symbol].len() && #[trigger] kindred(text, table, symbol, depth) > 0
            && kindred(text.take(index + 1), table, symbol, depth) == 0
}

/// A select query for `symbol` gets through on its way down, from depth
/// `depth` on and with the positions before `from` used up: there is a
/// position `x` at or after `from` whose symbol reaches the node at depth
/// `depth` on the path of `symbol`, and the same holds one level deeper for
/// the positions after `x`, down to the last bit of the code.
pub open spec fn threaded(
    text: Seq<char>,
    table: Map<char, Seq<u8>>,
    symbol: char,
    depth: int,
    from: int,
) -> bool
    decreases table[symbol].len() - depth,
{
    depth >= table[symbol].len() || exists|x: int|
        from <= x < text.len() && agrees(table[#[trigger] text[x]], table[symbol], depth)
            && threaded(text, table, symbol, depth + 1, x + 1)
}

/// A way down that starts later also serves a query that starts earlier.
pub proof fn lemma_threaded_earlier(
    text: Seq<char>,
    table: Map<char, Seq<u8>>,
    symbol: char,
    depth: int,
    from: int,
    earlier: int,
)
    requires
        earlier <= from,
        threaded(text, table, symbol, depth, from),
    ensures
        threaded(text, table, symbol, depth, earlier),
{
    if depth < table[symbol].len() {
        let x = choose|x: int|
            from <= x < text.len() && agrees(table[#[trigger] text[x]], table[symbol], depth)
                && threaded(text, table, symbol, depth + 1, x + 1);
        assert(earlier <= x < text.len() && agrees(table[text[x]], table[symbol], depth)
            && threaded(text, table, symbol, depth + 1, x + 1));
    }
}

/// A way down needs one position of its own for every level that is left.
pub proof fn lemma_threaded_room(
    text: Seq<char>,
    table: Map<char, Seq<u8>>,
    symbol: char,
    depth: int,
    from: int,
)
    requires
        table.contains_key(symbol),
        0 <= depth < table[symbol].len(),
        threaded(text, table, symbol, depth, from),
    ensures
        from + (table[symbol].len() - depth) <= text.len(),
    decreases table[symbol].len() - depth,
{
    let x = choose|x: int|
        from <= x < text.len() && agrees(table[#[trigger] text[x]], table[symbol], depth)
            && threaded(text, table, symbol, depth + 1, x + 1);
    if depth + 1 < table[symbol].len() {
        lemma_threaded_room(text, table, symbol, depth + 1, x + 1);
    }
}

/// The codes of a prefix of the text are a prefix of its codes, and a table
/// that covers the text covers the prefix.
pub proof fn lemma_codes_of_take(text: Seq<char>, table: Map<char, Seq<u8>>, m: int)
    requires
        0 <= m <= text.len(),
    ensures
        codes_of(text.take(m), table) == codes_of(text, table).take(m),
        covers(table, text) ==> covers(table, text.take(m)),
{
    assert(codes_of(text.take(m), table) =~= codes_of(text, table).take(m));
    if covers(table, text) {
        let head = text.take(m);
        assert forall|j: int| 0 <= j < head.len() implies table.contains_key(
            #[trigger] head[j],
        ) by {
            assert(head[j] == text[j]);
        }
    }
}

/// Over all bits of the code, the symbols that agree with `symbol` are its
/// own occurrences.
pub proof fn lemma_kindred_full(text: Seq<char>, codex: Codex, symbol: char)
    requires
        codex.wf(),
        covers(codex@, text),
        codex@.contains_key(symbol),
    ensures
        kindred(text, codex@, symbol, CODE_WIDTH as int) == occurrences(text, symbol),
    decreases text.len(),
{
    let table = codex@;
    let target = table[symbol];
    if text.len() > 0 {
        let front = text.drop_last();
        let last = text.last();
        assert forall|j: int| 0 <= j < front.len() implies table.contains_key(
            #[trigger] front[j],
        ) by {
            assert(front[j] == text[j]);
        }
        lemma_kindred_full(front, codex, symbol);
        assert(codes_of(text, table).drop_last() =~= codes_of(front, table));
        assert(table.contains_key(text[text.len() - 1]));
        codex.lemma_code_shape(last);
        codex.lemma_code_shape(symbol);
        if agrees(table[last], target, CODE_WIDTH as int) {
            assert(table[last] =~= target);
            codex.lemma_injective(last, symbol);
        }
    }
}

/// On the way down of a select query, a node that has no position left for
/// the query stops it.
pub proof fn lemma_way_down_blocked(
    text: Seq<char>,
    table: Map<char, Seq<u8>>,
    symbol: char,
    depth: int,
    used: int,
)
    requires
        0 <= depth < table[symbol].len(),
        0 <= used,
        used <= text.len() ==> sieve(codes_of(text, table).take(used), table[symbol], depth).len()
            >= sieve(codes_of(text, table), table[symbol], depth).len(),
    ensures
        !threaded(text, table, symbol, depth, used),
{
    let codes = codes_of(text, table);
    let target = table[symbol];
    if threaded(text, table, symbol, depth, used) {
        let x = choose|x: int|
            used <= x < text.len() && agrees(table[#[trigger] text[x]], target, depth)
                && threaded(text, table, symbol, depth + 1, x + 1);
        assert(codes[x] == table[text[x]]);
        lemma_sieve_room(codes, target, depth, used, x);
    }
}

/// On the way down of a select query, a node that has a position left for
/// the query takes the first position of the text, among those not used
/// up, whose symbol reaches the node. The query gets through from here
/// exactly if it gets through one level deeper and after that position.
pub proof fn lemma_way_down_step(
    text: Seq<char>,
    table: Map<char, Seq<u8>>,
    symbol: char,
    depth: int,
    used: int,
) -> (x: int)
    requires
        0 <= depth < table[symbol].len(),
        0 <= used <= text.len(),
        sieve(codes_of(text, table).take(used), table[symbol], depth).len() < sieve(
            codes_of(text, table),
            table[symbol],
            depth,
        ).len(),
    ensures
        used <= x < text.len(),
        sieve(codes_of(text, table).take(x + 1), table[symbol], depth).len() == sieve(
            codes_of(text, table).take(used),
            table[symbol],
            depth,
        ).len() + 1,
        threaded(text, table, symbol, depth, used) <==> threaded(
            text,
            table,
            symbol,
            depth + 1,
            x + 1,
        ),
{
    let codes = codes_of(text, table);
    let target = table[symbol];
    let x = lemma_sieve_next(codes, target, depth, used);
    lemma_sieve_prefix_step(codes, target, depth, x);
    assert(codes[x] == table[text[x]]);
    if threaded(text, table, symbol, depth, used) {
        let y = choose|y: int|
            used <= y < text.len() && agrees(table[#[trigger] text[y]], target, depth)
                && threaded(text, table, symbol, depth + 1, y + 1);
        assert(codes[y] == table[text[y]]);
        lemma_threaded_earlier(text, table, symbol, depth + 1, y + 1, x + 1);
    }
    if threaded(text, table, symbol, depth + 1, x + 1) {
        assert(used <= x < text.len() && agrees(table[text[x]], target, depth) && threaded(
            text,
            table,
            symbol,
            depth + 1,
            x + 1,
        ));
    }
    x
}

/// A position of the text whose code agrees with all bits of the code of
/// `symbol`, and up to which `k` codes do, is the `k`-th occurrence of
/// `symbol`.
pub proof fn lemma_found_occurrence(text: Seq<char>, codex: Codex, symbol: char, k: int, p: int)
    requires
        codex.wf(),
        covers(codex@, text),
        codex@.contains_key(symbol),
        0 <= p < text.len(),
        agrees(codes_of(text, codex@)[p], codex@[symbol], CODE_WIDTH as int),
        sieve(codes_of(text, codex@).take(p + 1), codex@[symbol], CODE_WIDTH as int).len() == k,
    ensures
        1 <= k <= occurrences(text, symbol),
        kth_occurrence(text, symbol, k) == p,
{
    let table = codex@;
    let codes = codes_of(text, table);
    let target = table[symbol];
    assert(table.contains_key(text[p]));
    codex.lemma_code_shape(text[p]);
    codex.lemma_code_shape(symbol);
    assert(codes[p] =~= target);
    codex.lemma_injective(text[p], symbol);
    lemma_codes_of_take(text, table, p + 1);
    lemma_kindred_full(text.take(p + 1), codex, symbol);
    assert(is_kth_occurrence(text, symbol, k, p));
    lemma_kth_occurrence_exists(text, symbol, k);
    lemma_kth_occurrence_unique(text, symbol, k, p, kth_occurrence(text, symbol, k));
}

/// A rank query that comes through leaves no node of the path dry, and its
/// last count is the number of occurrences.
pub proof fn lemma_rank_found(
    text: Seq<char>,
    codex: Codex,
    symbol: char,
    index: int,
    seen: Seq<char>,
    depth: int,
)
    requires
        codex.wf(),
        covers(codex@, text),
        codex@.contains_key(symbol),
        0 <= index < text.len(),
        seen == text.take(index + 1),
        1 <= depth <= CODE_WIDTH,
        forall|e: int| 1 <= e < depth ==> #[trigger] kindred(seen, codex@, symbol, e) > 0,
        depth == CODE_WIDTH || kindred(text, codex@, symbol, depth) == 0,
    ensures
        !starved(text, codex@, symbol, index),
        kindred(seen, codex@, symbol, depth) == occurrences(seen, symbol),
{
    let table = codex@;
    let codes = codes_of(text, table);
    let target = table[symbol];
    codex.lemma_code_shape(symbol);
    lemma_codes_of_take(text, table, index + 1);
    lemma_kindred_full(seen, codex, symbol);
    lemma_sieve_deeper(codes_of(seen, table), target, depth, CODE_WIDTH as int);
    lemma_sieve_take(codes, target, depth, index + 1);
    assert forall|e: int| 1 <= e < CODE_WIDTH implies !(kindred(text, table, symbol, e) > 0
        && kindred(seen, table, symbol, e) == 0) by {
        if e >= depth {
            lemma_sieve_deeper(codes, target, depth, e);
        }
    }
}

} // verus!
