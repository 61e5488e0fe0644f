//! A packed bitmask over the 64 KiB address space.
//!
//! "Which addresses conduct" is a bitset of 65,536 bits (8 KiB), never a
//! list of selected addresses. `materialize_addresses` is the one named,
//! O(n) exit from this form.

use vstd::prelude::*;
use crate::memory::ADDRESS_SPACE_SIZE;

verus! {

/// Number of 64-bit words that cover the address space.
const WORDS: usize = 1024;

/// Bit `b` (counted from the least significant end) of the word `w`.
spec fn word_bit(w: u64, b: u64) -> bool {
    (w >> b) & 1u64 == 1u64
}

/// Whether address `a` is selected in the packed words: bit `a % 64` of
/// word `a / 64`.
spec fn packed_bit(words: Seq<u64>, a: int) -> bool {
    word_bit(words[a / 64], (a % 64) as u64)
}

/// The selected addresses below `n`, in ascending order.
spec fn selected_below(words: Seq<u64>, n: int) -> Seq<u16>
    decreases n,
{
    if n <= 0 {
        Seq::empty()
    } else if packed_bit(words, n - 1) {
        selected_below(words, n - 1).push((n - 1) as u16)
    } else {
        selected_below(words, n - 1)
    }
}

/// Number of set bits of `w` below position `n`.
spec fn ones_below(w: u64, n: int) -> nat
    decreases n,
{
    if n <= 0 {
        0
    } else {
        ones_below(w, n - 1) + if word_bit(w, (n - 1) as u64) { 1nat } else { 0nat }
    }
}

/// Number of set bits over the first `k` words.
spec fn ones_in_words(words: Seq<u64>, k: int) -> nat
    decreases k,
{
    if k <= 0 {
        0
    } else {
        ones_in_words(words, k - 1) + ones_below(words[k - 1], 64)
    }
}

/// Whether `s` is in strictly ascending order.
pub open spec fn strictly_ascending(s: Seq<u16>) -> bool {
    forall|i: int, j: int| 0 <= i < j < s.len() ==> s[i] < s[j]
}

/// The number of set bits of `w`, one bit at a time.
fn word_count_ones(w: u64) -> (n: u32)
    ensures
        n == ones_below(w, 64),
{
    let mut n: u32 = 0;
    let mut b: u64 = 0;
    while b < 64
        invariant
            b <= 64,
            n == ones_below(w, b as int),
            n <= b,
        decreases 64 - b,
    {
        let bit = (w >> b) & 1;
        assert(bit == 0 || bit == 1) by (bit_vector)
            requires bit == (w >> b) & 1u64;
        n = n + bit as u32;
        b = b + 1;
    }
    n
}

proof fn lemma_bit_set_one(w: u64, b: u64)
    requires
        b < 64,
    ensures
        forall|j: u64| j < 64 ==> (#[trigger] word_bit(w | (1u64 << b), j) == (j == b || word_bit(w, j))),
{
    assert(forall|j: u64| j < 64 ==> ((#[trigger] ((w | (1u64 << b)) >> j)) & 1u64 == 1u64) == (j == b || (w >> j) & 1u64 == 1u64)) by (bit_vector)
        requires b < 64;
}

proof fn lemma_bit_clear_one(w: u64, b: u64)
    requires
        b < 64,
    ensures
        forall|j: u64| j < 64 ==> (#[trigger] word_bit(w & !(1u64 << b), j) == (j != b && word_bit(w, j))),
{
    assert(forall|j: u64| j < 64 ==> ((#[trigger] ((w & !(1u64 << b)) >> j)) & 1u64 == 1u64) == (j != b && (w >> j) & 1u64 == 1u64)) by (bit_vector)
        requires b < 64;
}

proof fn lemma_clear_set_bit_decreases(w: u64, b: u64)
    requires
        b < 64,
        word_bit(w, b),
    ensures
        w & !(1u64 << b) < w,
{
    assert(w & !(1u64 << b) < w) by (bit_vector)
        requires b < 64, (w >> b) & 1u64 == 1u64;
}

proof fn lemma_bit_ops(x: u64, y: u64)
    ensures
        forall|j: u64| #[trigger] word_bit(x & y, j) == (word_bit(x, j) && word_bit(y, j)),
        forall|j: u64| #[trigger] word_bit(x | y, j) == (word_bit(x, j) || word_bit(y, j)),
        forall|j: u64| j < 64 ==> #[trigger] word_bit(x & !y, j) == (word_bit(x, j) && !word_bit(y, j)),
{
    assert(forall|j: u64| ((#[trigger] ((x & y) >> j)) & 1u64 == 1u64) == ((x >> j) & 1u64 == 1u64 && (y >> j) & 1u64 == 1u64)) by (bit_vector);
    assert(forall|j: u64| ((#[trigger] ((x | y) >> j)) & 1u64 == 1u64) == ((x >> j) & 1u64 == 1u64 || (y >> j) & 1u64 == 1u64)) by (bit_vector);
    assert(forall|j: u64| j < 64 ==> ((#[trigger] ((x & !y) >> j)) & 1u64 == 1u64) == ((x >> j) & 1u64 == 1u64 && !((y >> j) & 1u64 == 1u64))) by (bit_vector);
}

proof fn lemma_bit_constants()
    ensures
        forall|j: u64| !#[trigger] word_bit(0u64, j),
        forall|j: u64| j < 64 ==> #[trigger] word_bit(0xffff_ffff_ffff_ffffu64, j),
{
    assert(forall|j: u64| !((#[trigger] (0u64 >> j)) & 1u64 == 1u64)) by (bit_vector);
    assert(forall|j: u64| j < 64 ==> (#[trigger] (0xffff_ffff_ffff_ffffu64 >> j)) & 1u64 == 1u64) by (bit_vector);
}

proof fn lemma_ones_below_bound(w: u64, n: int)
    requires
        0 <= n,
    ensures
        ones_below(w, n) <= n,
    decreases n,
{
    if n > 0 {
        lemma_ones_below_bound(w, n - 1);
    }
}

proof fn lemma_ones_all_ones(n: int)
    requires
        0 <= n <= 64,
    ensures
        ones_below(0xffff_ffff_ffff_ffffu64, n) == n,
    decreases n,
{
    if n > 0 {
        lemma_bit_constants();
        lemma_ones_all_ones(n - 1);
    }
}

proof fn lemma_words_all_ones(words: Seq<u64>, k: int)
    requires
        0 <= k <= words.len(),
        forall|i: int| 0 <= i < words.len() ==> words[i] == 0xffff_ffff_ffff_ffffu64,
    ensures
        ones_in_words(words, k) == 64 * k,
    decreases k,
{
    if k > 0 {
        lemma_ones_all_ones(64);
        lemma_words_all_ones(words, k - 1);
    }
}

/// Address `64 * k + j` lies in word `k` at bit `j`.
proof fn lemma_addr_split(k: int, j: int)
    requires
        0 <= j < 64,
    ensures
        (64 * k + j) / 64 == k,
        (64 * k + j) % 64 == j,
{
}

/// The ascending listing holds exactly the selected addresses below `n`.
proof fn lemma_selected_below(words: Seq<u64>, n: int)
    requires
        0 <= n <= ADDRESS_SPACE_SIZE,
    ensures
        selected_below(words, n).len() <= n,
        strictly_ascending(selected_below(words, n)),
        forall|i: int| 0 <= i < selected_below(words, n).len() ==> #[trigger] selected_below(words, n)[i] < n,
        forall|a: u16| #[trigger] selected_below(words, n).contains(a) <==> (a < n && packed_bit(words, a as int)),
    decreases n,
{
    if n > 0 {
        lemma_selected_below(words, n - 1);
        let prev = selected_below(words, n - 1);
        if packed_bit(words, n - 1) {
            let cur = prev.push((n - 1) as u16);
            assert forall|a: u16| cur.contains(a) <==> (a < n && packed_bit(words, a as int)) by {
                assert(prev.contains(a) <==> (a < n - 1 && packed_bit(words, a as int)));
                if a == n - 1 {
                    assert(cur[cur.len() - 1] == a);
                } else {
                    if cur.contains(a) {
                        let i = choose|i: int| 0 <= i < cur.len() && cur[i] == a;
                        assert(prev[i] == a);
                        assert(prev.contains(a));
                    }
                    if prev.contains(a) {
                        let i = choose|i: int| 0 <= i < prev.len() && prev[i] == a;
                        assert(cur[i] == a);
                    }
                }
            }
        } else {
            assert forall|a: u16| prev.contains(a) <==> (a < n && packed_bit(words, a as int)) by {
                assert(prev.contains(a) <==> (a < n - 1 && packed_bit(words, a as int)));
            }
        }
    }
}

/// No selected address in `[from, to)`: the listing does not grow.
proof fn lemma_selected_skip(words: Seq<u64>, from: int, to: int)
    requires
        0 <= from <= to,
        forall|a: int| from <= a < to ==> !#[trigger] packed_bit(words, a),
    ensures
        selected_below(words, to) == selected_below(words, from),
    decreases to - from,
{
    if from < to {
        assert(!packed_bit(words, to - 1));
        lemma_selected_skip(words, from, to - 1);
    }
}

/// The listing up to bit `n` of word `k` counts the set bits before it.
proof fn lemma_selected_len(words: Seq<u64>, k: int, n: int)
    requires
        0 <= k,
        0 <= n <= 64,
    ensures
        selected_below(words, 64 * k + n).len() == ones_in_words(words, k) + ones_below(words[k], n),
    decreases k, n,
{
    if n == 0 {
        if k > 0 {
            lemma_selected_len(words, k - 1, 64);
        }
    } else {
        lemma_selected_len(words, k, n - 1);
        lemma_addr_split(k, n - 1);
    }
}

/// A bitset of 65,536 bits, one for every address of the 64 KiB space.
#[derive(Clone, PartialEq, Eq)]
pub struct AddressMask {
    words: Box<[u64; WORDS]>,
}

impl View for AddressMask {
    type V = Set<u16>;

    /// The set of selected addresses.
    closed spec fn view(&self) -> Set<u16> {
        Set::new(|a: u16| packed_bit(self.words@, a as int))
    }
}

impl AddressMask {
    /// The ascending listing of the selected addresses.
    closed spec fn listing(&self) -> Seq<u16> {
        selected_below(self.words@, ADDRESS_SPACE_SIZE as int)
    }

    proof fn lemma_listing(&self)
        ensures
            strictly_ascending(self.listing()),
            self.listing().to_set() == self@,
            self.listing().len() == self@.len(),
            self.listing().len() == ones_in_words(self.words@, WORDS as int),
            self@.finite(),
    {
        lemma_selected_below(self.words@, ADDRESS_SPACE_SIZE as int);
        lemma_selected_len(self.words@, WORDS as int, 0);
        let l = self.listing();
        assert forall|a: u16| #[trigger] l.to_set().contains(a) == self@.contains(a) by {
            assert(a < ADDRESS_SPACE_SIZE);
        }
        assert(l.to_set() =~= self@);
        assert(l.no_duplicates());
        l.unique_seq_to_set();
    }

    /// An empty mask: no address selected.
    pub fn empty() -> (m: AddressMask)
        ensures
            m@ == Set::<u16>::empty(),
    {
        let m = AddressMask { words: Box::new([0u64; 1024]) };
        proof {
            lemma_bit_constants();
        }
        assert(m@ =~= Set::<u16>::empty());
        m
    }

    /// A full mask: every address selected.
    pub fn full() -> (m: AddressMask)
        ensures
            m@ == Set::<u16>::full(),
            m@.len() == ADDRESS_SPACE_SIZE,
    {
        let m = AddressMask { words: Box::new([0xffff_ffff_ffff_ffffu64; 1024]) };
        proof {
            lemma_bit_constants();
            lemma_words_all_ones(m.words@, WORDS as int);
            m.lemma_listing();
        }
        assert(m@ =~= Set::<u16>::full());
        m
    }

    /// Whether `addr` is selected.
    pub fn contains(&self, addr: u16) -> (selected: bool)
        ensures
            selected == self@.contains(addr),
    {
        let a = addr as usize;
        (self.words[a / 64] >> ((a % 64) as u64)) & 1 == 1
    }

    /// Select `addr`.
    pub fn set(&mut self, addr: u16)
        ensures
            final(self)@ == old(self)@.insert(addr),
    {
        let a = addr as usize;
        let k = a / 64;
        let b = (a % 64) as u64;
        let w = self.words[k];
        self.words[k] = w | (1u64 << b);
        proof {
            lemma_bit_set_one(w, b);
            assert forall|x: u16| #[trigger] self@.contains(x) == old(self)@.insert(addr).contains(x) by {
                if (x as int) / 64 == k as int {
                    if x != addr {
                        assert((x as int) % 64 != b);
                    }
                }
            }
            assert(self@ =~= old(self)@.insert(addr));
        }
    }

    /// Deselect `addr`.
    pub fn clear(&mut self, addr: u16)
        ensures
            final(self)@ == old(self)@.remove(addr),
    {
        let a = addr as usize;
        let k = a / 64;
        let b = (a % 64) as u64;
        let w = self.words[k];
        self.words[k] = w & !(1u64 << b);
        proof {
            lemma_bit_clear_one(w, b);
            assert forall|x: u16| #[trigger] self@.contains(x) == old(self)@.remove(addr).contains(x) by {
                if (x as int) / 64 == k as int {
                    if x != addr {
                        assert((x as int) % 64 != b);
                    }
                }
            }
            assert(self@ =~= old(self)@.remove(addr));
        }
    }

    /// Number of selected addresses, counted a word at a time.
    pub fn count(&self) -> (n: u32)
        ensures
            n == self@.len(),
    {
        let mut total: u32 = 0;
        let mut i: usize = 0;
        while i < WORDS
            invariant
                i <= WORDS,
                total == ones_in_words(self.words@, i as int),
                total <= 64 * i,
            decreases WORDS - i,
        {
            let c = word_count_ones(self.words[i]);
            proof {
                lemma_ones_below_bound(self.words@[i as int], 64);
            }
            total = total + c;
            i = i + 1;
        }
        proof {
            self.lemma_listing();
        }
        total
    }

    /// Word-wise AND: the addresses selected in both masks.
    pub fn and(&self, other: &AddressMask) -> (out: AddressMask)
        ensures
            out@ == self@.intersect(other@),
    {
        let mut out = AddressMask::empty();
        let mut i: usize = 0;
        while i < WORDS
            invariant
                i <= WORDS,
                forall|j: int| 0 <= j < i ==> #[trigger] out.words@[j] == self.words@[j] & other.words@[j],
            decreases WORDS - i,
        {
            out.words[i] = self.words[i] & other.words[i];
            i = i + 1;
        }
        proof {
            assert forall|x: u16| #[trigger] out@.contains(x) == self@.intersect(other@).contains(x) by {
                let k = (x as int) / 64;
                lemma_bit_ops(self.words@[k], other.words@[k]);
            }
            assert(out@ =~= self@.intersect(other@));
        }
        out
    }

    /// Word-wise OR: the addresses selected in either mask.
    pub fn or(&self, other: &AddressMask) -> (out: AddressMask)
        ensures
            out@ == self@.union(other@),
    {
        let mut out = AddressMask::empty();
        let mut i: usize = 0;
        while i < WORDS
            invariant
                i <= WORDS,
                forall|j: int| 0 <= j < i ==> #[trigger] out.words@[j] == self.words@[j] | other.words@[j],
            decreases WORDS - i,
        {
            out.words[i] = self.words[i] | other.words[i];
            i = i + 1;
        }
        proof {
            assert forall|x: u16| #[trigger] out@.contains(x) == self@.union(other@).contains(x) by {
                let k = (x as int) / 64;
                lemma_bit_ops(self.words@[k], other.words@[k]);
            }
            assert(out@ =~= self@.union(other@));
        }
        out
    }

    /// Word-wise AND-NOT: the addresses selected in `self` but not in `other`.
    pub fn and_not(&self, other: &AddressMask) -> (out: AddressMask)
        ensures
            out@ == self@.difference(other@),
    {
        let mut out = AddressMask::empty();
        let mut i: usize = 0;
        while i < WORDS
            invariant
                i <= WORDS,
                forall|j: int| 0 <= j < i ==> #[trigger] out.words@[j] == self.words@[j] & !other.words@[j],
            decreases WORDS - i,
        {
            out.words[i] = self.words[i] & !other.words[i];
            i = i + 1;
        }
        proof {
            assert forall|x: u16| #[trigger] out@.contains(x) == self@.difference(other@).contains(x) by {
                let k = (x as int) / 64;
                lemma_bit_ops(self.words@[k], other.words@[k]);
            }
            assert(out@ =~= self@.difference(other@));
        }
        out
    }

    /// The one named, O(n) exit from mask form: every selected address,
    /// in ascending order.
    pub fn materialize_addresses(&self) -> (out: Vec<u16>)
        ensures
            strictly_ascending(out@),
            out@.to_set() == self@,
            out@.len() == self@.len(),
    {
        let mut out: Vec<u16> = Vec::with_capacity(self.count() as usize);
        let mut k: usize = 0;
        while k < WORDS
            invariant
                k <= WORDS,
                out@ == selected_below(self.words@, 64 * k),
            decreases WORDS - k,
        {
            let w = self.words[k];
            let mut bits = w;
            let ghost mut p: int = 0;
            while bits != 0
                invariant
                    k < WORDS,
                    w == self.words@[k as int],
                    0 <= p <= 64,
                    forall|j: u64| j < 64 ==> #[trigger] word_bit(bits, j) == (j >= p && word_bit(w, j)),
                    out@ == selected_below(self.words@, 64 * k + p),
                decreases bits,
            {
                let t: u64 = bits.trailing_zeros() as u64;
                proof {
                    vstd::std_specs::bits::axiom_u64_trailing_zeros(bits);
                    assert(t < 64);
                    assert(word_bit(bits, t));
                    assert forall|a: int| 64 * k + p <= a < 64 * k + t implies !#[trigger] packed_bit(self.words@, a) by {
                        let j = a - 64 * k;
                        lemma_addr_split(k as int, j);
                        assert(!word_bit(bits, j as u64));
                    }
                    lemma_selected_skip(self.words@, 64 * k + p, 64 * k + t);
                    lemma_addr_split(k as int, t as int);
                    assert(packed_bit(self.words@, 64 * k + t));
                    lemma_bit_clear_one(bits, t);
                    lemma_clear_set_bit_decreases(bits, t);
                }
                out.push((k * 64 + t as usize) as u16);
                let ghost prev = bits;
                bits = bits & !(1u64 << t);
                proof {
                    assert forall|j: u64| j < 64 implies #[trigger] word_bit(bits, j) == (j >= t + 1 && word_bit(w, j)) by {
                        if j < t {
                            assert(!word_bit(prev, j));
                        }
                    }
                    p = t + 1;
                }
            }
            proof {
                lemma_bit_constants();
                assert forall|a: int| 64 * k + p <= a < 64 * k + 64 implies !#[trigger] packed_bit(self.words@, a) by {
                    let j = a - 64 * k;
                    lemma_addr_split(k as int, j);
                    assert(!word_bit(bits, j as u64));
                }
                lemma_selected_skip(self.words@, 64 * k + p, 64 * k + 64);
            }
            k = k + 1;
        }
        proof {
            self.lemma_listing();
        }
        out
    }
}

impl Default for AddressMask {
    fn default() -> (m: AddressMask)
        ensures
            m@ == Set::<u16>::empty(),
    {
        AddressMask::empty()
    }
}

/// Selecting an address makes it selected; clearing it again makes it
/// unselected; neither touches any other address.
pub proof fn law_set_clear_round_trip(selected: Set<u16>, addr: u16, other: u16)
    ensures
        selected.insert(addr).contains(addr),
        !selected.insert(addr).remove(addr).contains(addr),
        other != addr ==> (selected.insert(addr).contains(other) == selected.contains(other)),
        other != addr ==> (selected.insert(addr).remove(addr).contains(other) == selected.contains(other)),
{
}

/// An ascending listing of exactly the selected addresses is as long as the
/// number of selected addresses: what `materialize_addresses` returns has
/// the length that `count` reports.
pub proof fn law_listing_length_is_count(selected: Set<u16>, listing: Seq<u16>)
    requires
        strictly_ascending(listing),
        listing.to_set() == selected,
    ensures
        listing.len() == selected.len(),
{
    assert(listing.no_duplicates());
    listing.unique_seq_to_set();
}

/// Two ascending listings of the same addresses are the same listing: the
/// contract of `materialize_addresses` fixes its result.
pub proof fn law_listing_is_unique(a: Seq<u16>, b: Seq<u16>)
    requires
        strictly_ascending(a),
        strictly_ascending(b),
        a.to_set() == b.to_set(),
    ensures
        a == b,
    decreases a.len(),
{
    if a.len() == 0 {
        if b.len() > 0 {
            assert(b.to_set().contains(b[0]));
        }
    } else if b.len() == 0 {
        assert(a.to_set().contains(a[0]));
    } else {
        let la = a.last();
        let lb = b.last();
        assert(a.to_set().contains(la));
        assert(b.to_set().contains(lb));
        assert(b.contains(la));
        assert(a.contains(lb));
        let ia = choose|i: int| 0 <= i < a.len() && a[i] == lb;
        let ib = choose|i: int| 0 <= i < b.len() && b[i] == la;
        assert(la == lb) by {
            if ia < a.len() - 1 {
                assert(a[ia] < la);
            }
            if ib < b.len() - 1 {
                assert(b[ib] < lb);
            }
        }
        let a2 = a.drop_last();
        let b2 = b.drop_last();
        assert forall|x: u16| a2.to_set().contains(x) == b2.to_set().contains(x) by {
            if a2.contains(x) {
                let i = choose|i: int| 0 <= i < a2.len() && a2[i] == x;
                assert(a[i] == x && x < la);
                assert(a.to_set().contains(x));
                assert(b.to_set().contains(x));
                assert(b.contains(x));
                let j = choose|j: int| 0 <= j < b.len() && b[j] == x;
                assert(j != b.len() - 1);
                assert(b2[j] == x);
            }
            if b2.contains(x) {
                let j = choose|j: int| 0 <= j < b2.len() && b2[j] == x;
                assert(b[j] == x && x < lb);
                assert(b.to_set().contains(x));
                assert(a.to_set().contains(x));
                assert(a.contains(x));
                let i = choose|i: int| 0 <= i < a.len() && a[i] == x;
                assert(i != a.len() - 1);
                assert(a2[i] == x);
            }
        }
        assert(a2.to_set() =~= b2.to_set());
        law_listing_is_unique(a2, b2);
        assert(a =~= a2.push(la));
        assert(b =~= b2.push(lb));
    }
}

} // verus!
