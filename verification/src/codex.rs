//! The codex: a fixed-width binary code for every symbol of an alphabet.
//!
//! The symbols of an alphabet are sorted, and each receives the binary
//! representation of its position in that order, padded with zeros on the
//! left to `CODE_WIDTH` bits.

use vstd::prelude::*;
use vstd::arithmetic::power2::{lemma2_to64, lemma_pow2_unfold, pow2};
use crate::counting::is_binary;
use crate::failure::Failure;

verus! {

/// Number of bits in every code.
pub const CODE_WIDTH: usize = 3;

/// Largest alphabet that codes of `CODE_WIDTH` bits can tell apart.
pub const MAX_SYMBOLS: usize = 8;

/// The end-of-text marker, which an alphabet lists before every other symbol.
pub const SENTINEL: char = '$';

/// The `width` low bits of `rank`, most significant first.
pub open spec fn binary_code(rank: nat, width: nat) -> Seq<u8>
    decreases width,
{
    if width == 0 {
        Seq::empty()
    } else {
        binary_code(rank / 2, (width - 1) as nat).push((rank % 2) as u8)
    }
}

/// Each element is smaller than every later one.
pub open spec fn strictly_increasing(s: Seq<char>) -> bool {
    forall|i: int, j: int| 0 <= i < j < s.len() ==> s[i] < s[j]
}

/// The code table of a sorted list of symbols: the symbol at position `r`
/// maps to the bits of `r`.
pub open spec fn code_table(symbols: Seq<char>) -> Map<char, Seq<u8>> {
    Map::new(
        |c: char| symbols.contains(c),
        |c: char| binary_code(symbols.index_of(c) as nat, CODE_WIDTH as nat),
    )
}

/// Number of distinct symbols in `text`.
pub open spec fn distinct_symbols(text: Seq<char>) -> nat {
    text.to_set().len()
}

/// `a` comes before `b` in an alphabet: the sentinel first, the others ascending.
pub open spec fn alphabet_before(a: char, b: char) -> bool {
    b != SENTINEL && (a == SENTINEL || a < b)
}

/// `alphabet` lists the distinct symbols of `text`, each once, the sentinel
/// first and the others in ascending order.
pub open spec fn is_alphabet_of(alphabet: Seq<char>, text: Seq<char>) -> bool {
    &&& forall|c: char| alphabet.contains(c) <==> text.contains(c)
    &&& forall|i: int, j: int|
        0 <= i < j < alphabet.len() ==> alphabet_before(alphabet[i], alphabet[j])
}

/// A code has exactly `width` elements, each of them a bit.
pub proof fn lemma_binary_code_shape(rank: nat, width: nat)
    ensures
        binary_code(rank, width).len() == width,
        is_binary(binary_code(rank, width)),
    decreases width,
{
    if width > 0 {
        lemma_binary_code_shape(rank / 2, (width - 1) as nat);
    }
}

/// Ranks below `2^width` receive different codes.
pub proof fn lemma_binary_code_injective(a: nat, b: nat, width: nat)
    requires
        a < pow2(width),
        b < pow2(width),
        binary_code(a, width) == binary_code(b, width),
    ensures
        a == b,
    decreases width,
{
    if width == 0 {
        lemma2_to64();
    } else {
        let w = (width - 1) as nat;
        lemma_pow2_unfold(width);
        lemma_binary_code_shape(a / 2, w);
        lemma_binary_code_shape(b / 2, w);
        let ca = binary_code(a, width);
        let cb = binary_code(b, width);
        assert(ca.drop_last() =~= binary_code(a / 2, w));
        assert(cb.drop_last() =~= binary_code(b / 2, w));
        assert(ca.last() == (a % 2) as u8);
        assert(cb.last() == (b % 2) as u8);
        lemma_binary_code_injective(a / 2, b / 2, w);
    }
}

/// A strictly increasing sequence is determined by the set of its elements.
pub proof fn lemma_strictly_increasing_unique(a: Seq<char>, b: Seq<char>)
    requires
        strictly_increasing(a),
        strictly_increasing(b),
        forall|c: char| a.contains(c) <==> b.contains(c),
    ensures
        a == b,
    decreases a.len(),
{
    if a.len() == 0 {
        if b.len() > 0 {
            assert(b.contains(b[0]));
        }
        assert(a =~= b);
    } else if b.len() == 0 {
        assert(a.contains(a[0]));
    } else {
        // The largest elements coincide, and so do what precedes them.
        let x = a.last();
        let y = b.last();
        assert(a.contains(x));
        assert(b.contains(y));
        let i = choose|i: int| 0 <= i < b.len() && b[i] == x;
        let j = choose|j: int| 0 <= j < a.len() && a[j] == y;
        assert(x == y);
        let fa = a.drop_last();
        let fb = b.drop_last();
        assert forall|c: char| fa.contains(c) <==> fb.contains(c) by {
            if fa.contains(c) {
                let k = choose|k: int| 0 <= k < fa.len() && fa[k] == c;
                assert(a[k] == c);
                assert(a.contains(c));
                let m = choose|m: int| 0 <= m < b.len() && b[m] == c;
                assert(fb[m] == c);
            }
            if fb.contains(c) {
                let k = choose|k: int| 0 <= k < fb.len() && fb[k] == c;
                assert(b[k] == c);
                assert(b.contains(c));
                let m = choose|m: int| 0 <= m < a.len() && a[m] == c;
                assert(fa[m] == c);
            }
        }
        lemma_strictly_increasing_unique(fa, fb);
        assert(a =~= fa.push(x));
        assert(b =~= fb.push(y));
    }
}


/// What follows the sentinel in an alphabet, or the whole alphabet if it
/// does not start with the sentinel.
pub open spec fn after_sentinel(alphabet: Seq<char>) -> Seq<char> {
    if alphabet.len() > 0 && alphabet[0] == SENTINEL {
        alphabet.skip(1)
    } else {
        alphabet
    }
}

/// In an alphabet, what follows the sentinel is strictly increasing and
/// holds every symbol of the text but the sentinel.
proof fn lemma_after_sentinel(alphabet: Seq<char>, text: Seq<char>)
    requires
        is_alphabet_of(alphabet, text),
    ensures
        strictly_increasing(after_sentinel(alphabet)),
        forall|c: char|
            after_sentinel(alphabet).contains(c) <==> (c != SENTINEL && text.contains(c)),
        text.contains(SENTINEL) <==> (alphabet.len() > 0 && alphabet[0] == SENTINEL),
{
    let rest = after_sentinel(alphabet);
    let lead: int = if alphabet.len() > 0 && alphabet[0] == SENTINEL { 1 } else { 0 };
    assert forall|i: int| 0 <= i < rest.len() implies rest[i] == alphabet[i + lead] && rest[i]
        != SENTINEL by {
        if i + lead > 0 {
            assert(alphabet_before(alphabet[0], alphabet[i + lead]));
        }
    }
    assert forall|i: int, j: int| 0 <= i < j < rest.len() implies rest[i] < rest[j] by {
        assert(alphabet_before(alphabet[i + lead], alphabet[j + lead]));
    }
    assert forall|c: char| rest.contains(c) <==> (c != SENTINEL && text.contains(c)) by {
        if rest.contains(c) {
            let i = choose|i: int| 0 <= i < rest.len() && rest[i] == c;
            assert(alphabet[i + lead] == c);
            assert(alphabet.contains(c));
        }
        if c != SENTINEL && text.contains(c) {
            assert(alphabet.contains(c));
            let i = choose|i: int| 0 <= i < alphabet.len() && alphabet[i] == c;
            assert(rest[i - lead] == c);
        }
    }
    if text.contains(SENTINEL) {
        assert(alphabet.contains(SENTINEL));
        let i = choose|i: int| 0 <= i < alphabet.len() && alphabet[i] == SENTINEL;
        if i > 0 {
            assert(alphabet_before(alphabet[0], alphabet[i]));
        }
    }
    if alphabet.len() > 0 && alphabet[0] == SENTINEL {
        assert(alphabet.contains(SENTINEL));
    }
}

/// A text has one alphabet.
pub proof fn lemma_alphabet_unique(a: Seq<char>, b: Seq<char>, text: Seq<char>)
    requires
        is_alphabet_of(a, text),
        is_alphabet_of(b, text),
    ensures
        a == b,
{
    lemma_after_sentinel(a, text);
    lemma_after_sentinel(b, text);
    lemma_strictly_increasing_unique(after_sentinel(a), after_sentinel(b));
    if text.contains(SENTINEL) {
        assert(a =~= seq![SENTINEL] + a.skip(1));
        assert(b =~= seq![SENTINEL] + b.skip(1));
    }
}

/// Inserts `c` at its place in a sorted list of distinct symbols, unless the
/// list holds it already.
fn insert_symbol(symbols: &mut Vec<char>, c: char)
    requires
        strictly_increasing(old(symbols)@),
    ensures
        strictly_increasing(final(symbols)@),
        forall|x: char| final(symbols)@.contains(x) <==> (old(symbols)@.contains(x) || x == c),
        final(symbols)@.len() == old(symbols)@.len() + if old(symbols)@.contains(c) {
            0int
        } else {
            1int
        },
{
    let mut i: usize = 0;
    while i < symbols.len() && symbols[i] < c
        invariant
            *symbols == *old(symbols),
            0 <= i <= symbols.len(),
            forall|k: int| 0 <= k < i ==> symbols@[k] < c,
        decreases symbols.len() - i,
    {
        i = i + 1;
    }
    if i < symbols.len() && symbols[i] == c {
        assert(symbols@.contains(c));
        return ;
    }
    let ghost before = symbols@;
    assert(!before.contains(c)) by {
        if before.contains(c) {
            let k = choose|k: int| 0 <= k < before.len() && before[k] == c;
            if k > i {
                assert(before[i as int] < before[k]);
            }
        }
    }
    symbols.insert(i, c);
    proof {
        let after = symbols@;
        assert(after == before.insert(i as int, c));
        assert forall|a: int, b: int| 0 <= a < b < after.len() implies after[a] < after[b] by {
            let oa = if a < i { a } else { a - 1 };
            let ob = if b < i { b } else { b - 1 };
            if a != i && b != i {
                assert(before[oa] < before[ob]);
            } else if a == i {
                assert(after[b] == before[ob]);
                if ob > i {
                    assert(before[i as int] < before[ob]);
                }
            }
        }
        assert forall|x: char| after.contains(x) <==> (before.contains(x) || x == c) by {
            if after.contains(x) {
                let k = choose|k: int| 0 <= k < after.len() && after[k] == x;
                if k < i {
                    assert(before[k] == x);
                } else if k > i {
                    assert(before[k - 1] == x);
                }
            }
            if before.contains(x) {
                let k = choose|k: int| 0 <= k < before.len() && before[k] == x;
                if k < i {
                    assert(after[k] == x);
                } else {
                    assert(after[k + 1] == x);
                }
            }
            if x == c {
                assert(after[i as int] == x);
            }
        }
    }
}

/// Writes `rank` as `width` bits, most significant first.
fn encode(rank: usize, width: usize) -> (code: Vec<u8>)
    ensures
        code@ == binary_code(rank as nat, width as nat),
{
    let mut code: Vec<u8> = Vec::new();
    let mut j: usize = 0;
    while j < width
        invariant
            0 <= j <= width,
            code@.len() == j,
        decreases width - j,
    {
        code.push(0u8);
        j = j + 1;
    }
    let ghost full = binary_code(rank as nat, width as nat);
    proof {
        lemma_binary_code_shape(rank as nat, width as nat);
        assert(full.take(width as int) =~= full);
    }
    let mut rest: usize = rank;
    let mut k: usize = width;
    while k > 0
        invariant
            0 <= k <= width,
            full == binary_code(rank as nat, width as nat),
            full.len() == width,
            code@.len() == width,
            forall|idx: int| k <= idx < width ==> code@[idx] == full[idx],
            full.take(k as int) == binary_code(rest as nat, k as nat),
        decreases k,
    {
        let ghost upper = binary_code(rest as nat, k as nat);
        k = k - 1;
        let bit: u8 = (rest % 2) as u8;
        code.set(k, bit);
        proof {
            lemma_binary_code_shape((rest / 2) as nat, k as nat);
            assert(upper[k as int] == bit);
            assert(full[k as int] == full.take(k + 1)[k as int]);
            assert(full.take(k as int) =~= upper.drop_last());
            assert(upper.drop_last() =~= binary_code((rest / 2) as nat, k as nat));
        }
        rest = rest / 2;
    }
    assert(code@ =~= full);
    code
}

/// Tells whether two vectors hold the same bytes.
pub(crate) fn same_bytes(a: &Vec<u8>, b: &Vec<u8>) -> (same: bool)
    ensures
        same == (a@ == b@),
{
    if a.len() != b.len() {
        return false;
    }
    let mut i: usize = 0;
    while i < a.len()
        invariant
            a.len() == b.len(),
            0 <= i <= a.len(),
            forall|k: int| 0 <= k < i ==> a@[k] == b@[k],
        decreases a.len() - i,
    {
        if a[i] != b[i] {
            return false;
        }
        i = i + 1;
    }
    assert(a@ =~= b@);
    true
}

/// A table that gives each symbol of an alphabet its own code of
/// `CODE_WIDTH` bits. The symbol at position `r` of the sorted alphabet has
/// the bits of `r` as its code.
#[derive(Debug)]
pub struct Codex {
    symbols: Vec<char>,
    codes: Vec<Vec<u8>>,
}

impl View for Codex {
    type V = Map<char, Seq<u8>>;

    /// The code of every symbol that has one.
    open spec fn view(&self) -> Map<char, Seq<u8>> {
        code_table(self.symbols())
    }
}

impl Codex {
    /// The symbols that have a code, in ascending order.
    pub closed spec fn symbols(&self) -> Seq<char> {
        self.symbols@
    }

    /// The codes kept in memory are those of the code table.
    pub closed spec fn codes_stored(&self) -> bool {
        &&& self.codes@.len() == self.symbols@.len()
        &&& forall|i: int|
            0 <= i < self.codes@.len() ==> (#[trigger] self.codes@[i])@ == binary_code(
                i as nat,
                CODE_WIDTH as nat,
            )
    }

    /// The symbols are sorted and distinct, and few enough for every one of
    /// them to have a code of its own.
    pub open spec fn wf(&self) -> bool {
        &&& strictly_increasing(self.symbols())
        &&& self.symbols().len() <= MAX_SYMBOLS
        &&& self.codes_stored()
    }

    /// Length of the longest code: `CODE_WIDTH`, or 0 for a codex without symbols.
    pub open spec fn spec_width(&self) -> nat {
        if self.symbols().len() == 0 {
            0
        } else {
            CODE_WIDTH as nat
        }
    }

    /// Some symbol has `code` as its code.
    pub open spec fn has_code(&self, code: Seq<u8>) -> bool {
        exists|c: char| self@.contains_key(c) && self@[c] == code
    }

    /// The symbol whose code is `code`. Meaningful when `has_code(code)`.
    pub open spec fn symbol_of(&self, code: Seq<u8>) -> char {
        choose|c: char| self@.contains_key(c) && self@[c] == code
    }

    /// The code of the symbol at position `r` of the sorted alphabet is the
    /// bits of `r`.
    pub proof fn lemma_code_at(&self, r: int)
        requires
            self.wf(),
            0 <= r < self.symbols().len(),
        ensures
            self@.contains_key(self.symbols()[r]),
            self@[self.symbols()[r]] == binary_code(r as nat, CODE_WIDTH as nat),
    {
        let symbols = self.symbols();
        let c = symbols[r];
        assert(symbols.contains(c));
        let k = symbols.index_of(c);
        assert(0 <= k < symbols.len() && symbols[k] == c);
        if k < r {
            assert(symbols[k] < symbols[r]);
        } else if r < k {
            assert(symbols[r] < symbols[k]);
        }
    }

    /// Every code has `CODE_WIDTH` bits.
    pub proof fn lemma_code_shape(&self, c: char)
        requires
            self@.contains_key(c),
        ensures
            self@[c].len() == CODE_WIDTH,
            is_binary(self@[c]),
    {
        lemma_binary_code_shape(self.symbols().index_of(c) as nat, CODE_WIDTH as nat);
    }

    /// No two symbols share a code, so a code names its symbol.
    pub proof fn lemma_injective(&self, a: char, b: char)
        requires
            self.wf(),
            self@.contains_key(a),
            self@.contains_key(b),
            self@[a] == self@[b],
        ensures
            a == b,
            self.symbol_of(self@[a]) == a,
    {
        let symbols = self.symbols();
        let i = symbols.index_of(a);
        let j = symbols.index_of(b);
        assert(0 <= i < symbols.len() && symbols[i] == a);
        assert(0 <= j < symbols.len() && symbols[j] == b);
        lemma2_to64();
        lemma_binary_code_injective(i as nat, j as nat, CODE_WIDTH as nat);
        let d = self.symbol_of(self@[a]);
        let k = symbols.index_of(d);
        assert(0 <= k < symbols.len() && symbols[k] == d);
        lemma_binary_code_injective(i as nat, k as nat, CODE_WIDTH as nat);
    }

    /// An alphabet has one codex: two well-formed codices with the same
    /// symbols list them in the same order and give them the same codes.
    pub proof fn lemma_unique(&self, other: Codex)
        requires
            self.wf(),
            other.wf(),
            forall|c: char| self.symbols().contains(c) <==> other.symbols().contains(c),
        ensures
            self.symbols() == other.symbols(),
            self@ == other@,
    {
        lemma_strictly_increasing_unique(self.symbols(), other.symbols());
    }

    /// The code of `symbol`, if it has one.
    pub fn get(&self, symbol: &char) -> (code: Option<&Vec<u8>>)
        requires
            self.wf(),
        ensures
            match code {
                Some(bits) => self@.contains_key(*symbol) && bits@ == self@[*symbol],
                None => !self@.contains_key(*symbol),
            },
    {
        let mut i: usize = 0;
        while i < self.symbols.len()
            invariant
                self.wf(),
                0 <= i <= self.symbols.len(),
                forall|k: int| 0 <= k < i ==> self.symbols@[k] != *symbol,
            decreases self.symbols.len() - i,
        {
            if self.symbols[i] == *symbol {
                proof {
                    self.lemma_code_at(i as int);
                }
                return Some(&self.codes[i]);
            }
            i = i + 1;
        }
        None
    }

    /// The symbol whose code is `code`, if there is one.
    pub fn decode(&self, code: &Vec<u8>) -> (symbol: Option<char>)
        requires
            self.wf(),
        ensures
            match symbol {
                Some(c) => self@.contains_key(c) && self@[c] == code@ && c == self.symbol_of(code@),
                None => !self.has_code(code@),
            },
    {
        let mut i: usize = 0;
        while i < self.symbols.len()
            invariant
                self.wf(),
                0 <= i <= self.symbols.len(),
                forall|k: int| 0 <= k < i ==> (#[trigger] self.codes@[k])@ != code@,
            decreases self.symbols.len() - i,
        {
            if same_bytes(&self.codes[i], code) {
                proof {
                    self.lemma_code_at(i as int);
                    let c = self.symbols@[i as int];
                    self.lemma_injective(c, c);
                }
                return Some(self.symbols[i]);
            }
            i = i + 1;
        }
        proof {
            if self.has_code(code@) {
                let c = choose|c: char| self@.contains_key(c) && self@[c] == code@;
                let k = self.symbols().index_of(c);
                assert(0 <= k < self.symbols().len() && self.symbols()[k] == c);
                self.lemma_code_at(k);
                assert(self.codes@[k]@ == code@);
            }
        }
        None
    }

    /// Number of symbols that have a code.
    pub fn len(&self) -> (count: usize)
        ensures
            count == self.symbols().len(),
    {
        self.symbols.len()
    }

    /// Length of the longest code.
    pub fn width(&self) -> (bits: usize)
        ensures
            bits == self.spec_width(),
    {
        if self.symbols.len() == 0 {
            0
        } else {
            CODE_WIDTH
        }
    }
}

impl Clone for Codex {
    /// A copy with the same symbols and the same codes.
    fn clone(&self) -> (copy: Codex)
        ensures
            copy.symbols() == self.symbols(),
            self.wf() ==> copy.wf(),
    {
        let mut symbols: Vec<char> = Vec::new();
        let mut codes: Vec<Vec<u8>> = Vec::new();
        let mut i: usize = 0;
        while i < self.symbols.len()
            invariant
                0 <= i <= self.symbols.len(),
                symbols@ == self.symbols@.take(i as int),
            decreases self.symbols.len() - i,
        {
            symbols.push(self.symbols[i]);
            assert(self.symbols@.take(i + 1) =~= self.symbols@.take(i as int).push(
                self.symbols@[i as int],
            ));
            i = i + 1;
        }
        assert(self.symbols@.take(i as int) =~= self.symbols@);
        let mut r: usize = 0;
        while r < self.codes.len()
            invariant
                0 <= r <= self.codes.len(),
                codes@.len() == r,
                forall|k: int| 0 <= k < r ==> (#[trigger] codes@[k])@ == self.codes@[k]@,
            decreases self.codes.len() - r,
        {
            let source = &self.codes[r];
            let mut bits: Vec<u8> = Vec::new();
            let mut j: usize = 0;
            while j < source.len()
                invariant
                    0 <= j <= source.len(),
                    bits@ == source@.take(j as int),
                decreases source.len() - j,
            {
                bits.push(source[j]);
                assert(source@.take(j + 1) =~= source@.take(j as int).push(source@[j as int]));
                j = j + 1;
            }
            assert(source@.take(j as int) =~= source@);
            codes.push(bits);
            r = r + 1;
        }
        Codex { symbols, codes }
    }
}

/// More than `MAX_SYMBOLS` sorted symbols, all taken from `text`, show that
/// `text` holds more distinct symbols than codes can tell apart.
proof fn lemma_alphabet_overflows(symbols: Seq<char>, text: Seq<char>)
    requires
        strictly_increasing(symbols),
        forall|c: char| symbols.contains(c) ==> text.contains(c),
    ensures
        symbols.len() <= distinct_symbols(text),
{
    assert(symbols.no_duplicates());
    symbols.unique_seq_to_set();
    vstd::seq_lib::seq_to_set_is_finite(text);
    assert(symbols.to_set().subset_of(text.to_set()));
    vstd::set_lib::lemma_len_subset(symbols.to_set(), text.to_set());
}

/// A sorted list of exactly the symbols of `text` has one entry for each
/// distinct symbol.
proof fn lemma_alphabet_size(symbols: Seq<char>, text: Seq<char>)
    requires
        strictly_increasing(symbols),
        forall|c: char| symbols.contains(c) <==> text.contains(c),
    ensures
        symbols.len() == distinct_symbols(text),
{
    assert(symbols.no_duplicates());
    symbols.unique_seq_to_set();
    assert(symbols.to_set() =~= text.to_set());
}

/// Builds the codex of the alphabet made of the distinct characters of
/// `string`: sorted, the character at position `r` gets the bits of `r`.
/// An alphabet of more than `MAX_SYMBOLS` characters would make two of them
/// share a code; such a collision is refused, and there is no codex.
pub fn construct_codex(string: &str) -> (codex: Result<Codex, Failure>)
    ensures
        match codex {
            Ok(codex) => {
                &&& codex.wf()
                &&& forall|c: char| codex.symbols().contains(c) <==> string@.contains(c)
                &&& distinct_symbols(string@) <= MAX_SYMBOLS
            },
            Err(failure) => {
                &&& failure == Failure::CodexCollision
                &&& distinct_symbols(string@) > MAX_SYMBOLS
            },
        },
{
    let mut symbols: Vec<char> = Vec::new();
    for c in it: string.chars()
        invariant
            it.seq() == string@,
            strictly_increasing(symbols@),
            symbols@.len() <= MAX_SYMBOLS,
            forall|x: char| symbols@.contains(x) <==> string@.take(it.index() as int).contains(x),
    {
        let ghost seen = string@.take(it.index() as int);
        insert_symbol(&mut symbols, c);
        proof {
            let next = string@.take(it.index() + 1);
            assert(next =~= seen.push(c));
            assert forall|x: char| symbols@.contains(x) <==> next.contains(x) by {
                if next.contains(x) {
                    let k = choose|k: int| 0 <= k < next.len() && next[k] == x;
                    if k < seen.len() {
                        assert(seen[k] == x);
                    }
                }
                if seen.contains(x) {
                    let k = choose|k: int| 0 <= k < seen.len() && seen[k] == x;
                    assert(next[k] == x);
                }
                if x == c {
                    assert(next[seen.len() as int] == x);
                }
            }
            assert forall|x: char| next.contains(x) implies string@.contains(x) by {
                let k = choose|k: int| 0 <= k < next.len() && next[k] == x;
                assert(string@[k] == x);
            }
        }
        if symbols.len() > MAX_SYMBOLS {
            proof {
                lemma_alphabet_overflows(symbols@, string@);
            }
            return Err(Failure::CodexCollision);
        }
    }
    proof {
        assert(string@.take(string@.len() as int) =~= string@);
        lemma_alphabet_size(symbols@, string@);
    }
    let mut codes: Vec<Vec<u8>> = Vec::new();
    let mut r: usize = 0;
    while r < symbols.len()
        invariant
            0 <= r <= symbols.len(),
            codes@.len() == r,
            forall|k: int|
                0 <= k < r ==> (#[trigger] codes@[k])@ == binary_code(k as nat, CODE_WIDTH as nat),
        decreases symbols.len() - r,
    {
        let code = encode(r, CODE_WIDTH);
        codes.push(code);
        r = r + 1;
    }
    Ok(Codex { symbols, codes })
}

/// `String::push` of the standard library: it appends the character to the
/// end of the string and changes nothing else. Its documentation says so;
/// the claim is not proved here.
pub assume_specification[ String::push ](string: &mut String, ch: char)
    ensures
        final(string)@ == old(string)@.push(ch),
;

/// Lists the distinct symbols of `s`: the sentinel first if it occurs, then
/// the others in ascending order.
pub fn get_alphabet(s: &str) -> (alphabet: String)
    ensures
        is_alphabet_of(alphabet@, s@),
{
    let mut others: Vec<char> = Vec::new();
    let mut has_sentinel = false;
    for c in it: s.chars()
        invariant
            it.seq() == s@,
            strictly_increasing(others@),
            has_sentinel <==> s@.take(it.index() as int).contains(SENTINEL),
            forall|x: char|
                others@.contains(x) <==> (x != SENTINEL && s@.take(it.index() as int).contains(x)),
    {
        let ghost seen = s@.take(it.index() as int);
        let ghost next = s@.take(it.index() + 1);
        let ghost before = others@;
        if c == SENTINEL {
            has_sentinel = true;
        } else {
            insert_symbol(&mut others, c);
        }
        proof {
            assert(next =~= seen.push(c));
            assert(next[seen.len() as int] == c);
            assert forall|x: char| next.contains(x) <==> (seen.contains(x) || x == c) by {
                if next.contains(x) {
                    let k = choose|k: int| 0 <= k < next.len() && next[k] == x;
                    if k < seen.len() {
                        assert(seen[k] == x);
                    }
                }
                if seen.contains(x) {
                    let k = choose|k: int| 0 <= k < seen.len() && seen[k] == x;
                    assert(next[k] == x);
                }
            }
        }
    }
    assert(s@.take(s@.len() as int) =~= s@);
    let mut alphabet = String::new();
    if has_sentinel {
        alphabet.push(SENTINEL);
    }
    let ghost lead: int = if has_sentinel { 1 } else { 0 };
    let mut i: usize = 0;
    while i < others.len()
        invariant
            0 <= i <= others.len(),
            lead == if has_sentinel { 1int } else { 0int },
            alphabet@.len() == lead + i,
            has_sentinel ==> alphabet@[0] == SENTINEL,
            forall|k: int| 0 <= k < i ==> alphabet@[lead + k] == others@[k],
        decreases others.len() - i,
    {
        alphabet.push(others[i]);
        i = i + 1;
    }
    proof {
        let a = alphabet@;
        assert forall|c: char| a.contains(c) <==> s@.contains(c) by {
            if a.contains(c) {
                let k = choose|k: int| 0 <= k < a.len() && a[k] == c;
                if k >= lead {
                    assert(others@[k - lead] == c);
                    assert(others@.contains(c));
                }
            }
            if s@.contains(c) {
                if c == SENTINEL {
                    assert(a[0] == c);
                } else {
                    assert(others@.contains(c));
                    let k = choose|k: int| 0 <= k < others@.len() && others@[k] == c;
                    assert(a[lead + k] == c);
                }
            }
        }
        assert forall|i: int, j: int| 0 <= i < j < a.len() implies alphabet_before(
            a[i],
            a[j],
        ) by {
            assert(a[j] == others@[j - lead]);
            assert(others@.contains(a[j]));
            if i >= lead {
                assert(a[i] == others@[i - lead]);
                assert(others@[i - lead] < others@[j - lead]);
            }
        }
    }
    alphabet
}

} // verus!
