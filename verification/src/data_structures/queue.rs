use crate::error::Error;
use vstd::arithmetic::power2::{
    lemma2_to64, lemma2_to64_rest, lemma_pow2_strictly_increases, lemma_pow2_unfold, pow2,
};
use vstd::multiset::Multiset;
use vstd::prelude::*;

verus! {

/// A first-in, first-out queue that is meant to hold at most `max_size`
/// items: a push onto a queue of exactly that size first drops the oldest
/// item, if there is one.
pub struct Queue<T> {
    queue: Vec<T>,
    pub max_size: usize,
}

impl<T> View for Queue<T> {
    type V = Seq<T>;

    /// The items, oldest first.
    closed spec fn view(&self) -> Seq<T> {
        self.queue@
    }
}

impl<T> Queue<T> {
    /// The number of items at which a push starts to drop the oldest one.
    pub closed spec fn capacity(&self) -> nat {
        self.max_size as nat
    }

    /// An empty queue for at most `max_size` items.
    pub fn new(max_size: usize) -> (queue: Queue<T>)
        ensures
            queue@ == Seq::<T>::empty(),
            queue.capacity() == max_size,
    {
        Queue { queue: Vec::new(), max_size }
    }

    /// Appends `item`. A queue that holds exactly `max_size` items loses its
    /// oldest one first.
    pub fn push(&mut self, item: T)
        ensures
            final(self).capacity() == old(self).capacity(),
            final(self)@ == (if old(self)@.len() == old(self).capacity() && old(self)@.len() > 0 {
                old(self)@.drop_first()
            } else {
                old(self)@
            }).push(item),
    {
        if self.queue.len() == self.max_size && self.queue.len() > 0 {
            let _ = self.queue.remove(0);
        }
        self.queue.push(item);
    }

    /// Removes the oldest item and returns it; `Error::EmptyQueue` when there
    /// is none.
    pub fn pop(&mut self) -> (popped: Result<T, Error>)
        ensures
            final(self).capacity() == old(self).capacity(),
            old(self)@.len() == 0 ==> popped == Err::<T, Error>(Error::EmptyQueue) && final(self)@
                == old(self)@,
            old(self)@.len() > 0 ==> popped == Ok::<T, Error>(old(self)@[0]) && final(self)@
                == old(self)@.drop_first(),
    {
        if self.queue.len() == 0 {
            return Err(Error::EmptyQueue);
        }
        let oldest = self.queue.remove(0);
        Ok(oldest)
    }

    /// The number of items at which a push starts to drop the oldest one.
    pub fn max_size(&self) -> (max_size: usize)
        ensures
            max_size == self.capacity(),
    {
        self.max_size
    }

    /// The number of items in the queue.
    pub fn len(&self) -> (len: usize)
        ensures
            len == self@.len(),
    {
        self.queue.len()
    }

    /// The items in the order in which they will leave the queue.
    pub fn iter(&self) -> (items: &[T])
        ensures
            items@ == self@,
    {
        self.queue.as_slice()
    }
}

/// The value of the hidden bit of a normal double's mantissa: `2^52`.
pub const HIDDEN_BIT: u64 = 0x10_0000_0000_0000;

/// The exponent field that marks a double as infinite or not a number.
pub const EXPONENT_SPECIAL: u64 = 0x7ff;

/// The exponent field of the bit pattern `bits`, still biased.
pub open spec fn exponent_field(bits: u64) -> nat {
    ((bits as nat) / (HIDDEN_BIT as nat)) % 0x800
}

/// The fraction field of the bit pattern `bits`.
pub open spec fn fraction_field(bits: u64) -> nat {
    (bits as nat) % (HIDDEN_BIT as nat)
}

/// Whether `bits` is the pattern of a finite double: neither an infinity nor
/// a NaN.
pub open spec fn is_finite(bits: u64) -> bool {
    exponent_field(bits) != EXPONENT_SPECIAL
}

/// A double taken apart into sign, exponent and mantissa. The double it
/// stands for is `sign * mantissa * 2^exponent`.
#[derive(Clone, Copy, Debug, PartialEq, Eq, Structural)]
pub struct Cost {
    pub mantissa: u64,
    pub exponent: i16,
    pub sign: i8,
}

impl Cost {
    /// The parts of the double whose bit pattern is `bits`: the sign is `1`
    /// or `-1`; a subnormal's fraction is doubled so that it shares the
    /// exponent scale of the normals, which gain their hidden bit.
    pub open spec fn of_bits(bits: u64) -> Cost {
        Cost {
            mantissa: if exponent_field(bits) == 0 {
                (2 * fraction_field(bits)) as u64
            } else {
                (fraction_field(bits) + HIDDEN_BIT) as u64
            },
            exponent: (exponent_field(bits) - 1075) as i16,
            sign: if bits < 0x8000_0000_0000_0000 {
                1i8
            } else {
                -1i8
            },
        }
    }

    /// The strict order of costs: by sign, then by exponent, then by
    /// mantissa.
    pub open spec fn lt(self, other: Cost) -> bool {
        self.sign < other.sign || (self.sign == other.sign && (self.exponent < other.exponent || (
        self.exponent == other.exponent && self.mantissa < other.mantissa)))
    }

    /// `self` is `other` or comes before it.
    pub open spec fn le(self, other: Cost) -> bool {
        self == other || self.lt(other)
    }

    /// Takes the double with the bit pattern `bits` apart.
    pub fn from_bits(bits: u64) -> (cost: Cost)
        ensures
            cost == Cost::of_bits(bits),
    {
        let sign: i8 = if bits >> 63 == 0 {
            1
        } else {
            -1
        };
        let field: u64 = (bits >> 52) & 0x7ff;
        let fraction: u64 = bits & 0xf_ffff_ffff_ffff;
        let mantissa: u64 = if field == 0 {
            fraction << 1
        } else {
            fraction | 0x10_0000_0000_0000
        };
        assert(field == (bits / 0x10_0000_0000_0000) % 0x800) by (bit_vector)
            requires
                field == (bits >> 52) & 0x7ff,
        ;
        assert(fraction == bits % 0x10_0000_0000_0000) by (bit_vector)
            requires
                fraction == bits & 0xf_ffff_ffff_ffff,
        ;
        assert(fraction < 0x10_0000_0000_0000 ==> fraction << 1 == 2 * fraction && fraction
            | 0x10_0000_0000_0000 == fraction + 0x10_0000_0000_0000) by (bit_vector);
        assert((bits >> 63 == 0) <==> bits < 0x8000_0000_0000_0000) by (bit_vector);
        let exponent: i16 = (field as i16) - 1075;
        Cost { mantissa, exponent, sign }
    }

    /// Whether `self` comes strictly before `other`.
    pub fn precedes(&self, other: &Cost) -> (before: bool)
        ensures
            before == self.lt(*other),
    {
        self.sign < other.sign || (self.sign == other.sign && (self.exponent < other.exponent || (
        self.exponent == other.exponent && self.mantissa < other.mantissa)))
    }
}

/// Whether `bits` is finite, tested on the machine.
pub fn finite_bits(bits: u64) -> (finite: bool)
    ensures
        finite == is_finite(bits),
{
    let field: u64 = (bits >> 52) & 0x7ff;
    assert(field == (bits / 0x10_0000_0000_0000) % 0x800) by (bit_vector)
        requires
            field == (bits >> 52) & 0x7ff,
    ;
    field != EXPONENT_SPECIAL
}

/// The order of costs is a strict total order: no cost comes before itself,
/// of two costs in order the second does not come before the first, the
/// order carries over a cost in between, and two costs that differ are in
/// order one way or the other.
pub proof fn lemma_cost_order_strict_total(a: Cost, b: Cost, c: Cost)
    ensures
        !a.lt(a),
        a.lt(b) ==> !b.lt(a),
        a.lt(b) && b.lt(c) ==> a.lt(c),
        a == b || a.lt(b) || b.lt(a),
        a.le(b) && b.le(a) ==> a == b,
        a.le(b) && b.le(c) ==> a.le(c),
{
}

/// Two bit patterns with the same parts are the same pattern.
pub proof fn lemma_of_bits_injective(a: u64, b: u64)
    requires
        Cost::of_bits(a) == Cost::of_bits(b),
    ensures
        a == b,
{
    lemma_bits_split(a);
    lemma_bits_split(b);
}

/// A bit pattern is made of its sign bit, its exponent field and its
/// fraction field.
proof fn lemma_bits_split(bits: u64)
    ensures
        bits == (if bits < 0x8000_0000_0000_0000 {
            0nat
        } else {
            0x8000_0000_0000_0000nat
        }) + exponent_field(bits) * HIDDEN_BIT + fraction_field(bits),
        exponent_field(bits) < 0x800,
        fraction_field(bits) < HIDDEN_BIT,
{
    let high = (bits as nat) / (HIDDEN_BIT as nat);
    assert(high < 0x1000);
    assert(high >= 0x800 <==> bits >= 0x8000_0000_0000_0000);
}

/// How the order of costs reads on bit patterns: a negative double comes
/// before one that is not negative, and two doubles of the same sign are
/// ordered as their patterns are. For doubles that are not negative that is
/// their own order; negative doubles are ordered by their magnitudes.
pub proof fn lemma_order_of_bits(a: u64, b: u64)
    ensures
        Cost::of_bits(a).lt(Cost::of_bits(b)) <==> if (a < 0x8000_0000_0000_0000) == (b
            < 0x8000_0000_0000_0000) {
            a < b
        } else {
            a >= 0x8000_0000_0000_0000
        },
{
    lemma_bits_split(a);
    lemma_bits_split(b);
}

/// Negative zero comes before positive zero.
pub proof fn lemma_zeros_in_order()
    ensures
        Cost::of_bits(0x8000_0000_0000_0000).lt(Cost::of_bits(0)),
        is_finite(0x8000_0000_0000_0000),
        is_finite(0),
{
}

/// The greatest cost that is counted exactly: `2^53`. Every whole number up
/// to it is a double; beyond it some are not.
pub const COST_LIMIT: u64 = 0x20_0000_0000_0000;

/// The bit pattern of the double `2^53`.
pub const COST_LIMIT_BITS: u64 = 0x4340_0000_0000_0000;

/// How often `n` must be doubled until it fills the 53 bits of a mantissa.
pub open spec fn shift_of(n: nat) -> nat
    decreases COST_LIMIT - n,
{
    if n == 0 || n >= HIDDEN_BIT {
        0
    } else {
        1 + shift_of(2 * n)
    }
}

/// The bit pattern of the double that equals the whole number `n`, for `n`
/// up to `COST_LIMIT`.
pub open spec fn whole_bits_of(n: nat) -> u64 {
    if n == 0 {
        0
    } else if n >= COST_LIMIT {
        COST_LIMIT_BITS
    } else {
        ((1075 - shift_of(n)) * HIDDEN_BIT + (n * pow2(shift_of(n)) - HIDDEN_BIT)) as u64
    }
}

/// The parts of the double that equals the whole number `n`.
pub open spec fn whole_cost(n: nat) -> Cost {
    Cost::of_bits(whole_bits_of(n))
}

/// Doubling `n` as often as `shift_of` says fills the mantissa exactly.
proof fn lemma_shift_of(n: nat)
    requires
        0 < n < COST_LIMIT,
    ensures
        shift_of(n) <= 52,
        HIDDEN_BIT <= n * pow2(shift_of(n)) < COST_LIMIT,
    decreases COST_LIMIT - n,
{
    lemma2_to64();
    lemma2_to64_rest();
    if n >= HIDDEN_BIT {
        assert(shift_of(n) == 0);
    } else {
        lemma_shift_of(2 * n);
        let below = shift_of(2 * n);
        assert(shift_of(n) == 1 + below);
        lemma_pow2_unfold(1 + below);
        assert(n * pow2(1 + below) == (2 * n) * pow2(below)) by (nonlinear_arith)
            requires
                pow2(1 + below) == 2 * pow2(below),
        ;
        if shift_of(n) > 52 {
            lemma_pow2_strictly_increases(52, shift_of(n));
            assert(n * pow2(shift_of(n)) >= pow2(shift_of(n))) by (nonlinear_arith)
                requires
                    n >= 1,
            ;
        }
    }
}

/// The double of the whole number `n` is positive and finite, and its
/// mantissa times two to its exponent is `n`: the mantissa is `n` doubled
/// `shift_of(n)` times, and the exponent takes the doublings back.
pub proof fn lemma_whole_cost(n: nat)
    requires
        0 < n < COST_LIMIT,
    ensures
        shift_of(n) <= 52,
        whole_cost(n).sign == 1,
        whole_cost(n).exponent == -shift_of(n),
        whole_cost(n).mantissa == n * pow2(shift_of(n)),
        HIDDEN_BIT <= whole_cost(n).mantissa < COST_LIMIT,
        whole_bits_of(n) < 0x7ff0_0000_0000_0000,
        is_finite(whole_bits_of(n)),
{
    lemma_shift_of(n);
    let field = (1075 - shift_of(n)) as nat;
    let fraction = (n * pow2(shift_of(n)) - HIDDEN_BIT) as nat;
    let bits = whole_bits_of(n);
    assert(bits == field * HIDDEN_BIT + fraction);
    assert(fraction < HIDDEN_BIT);
    assert(1023 <= field <= 1075);
    assert((bits as nat) / (HIDDEN_BIT as nat) == field && (bits as nat) % (HIDDEN_BIT as nat)
        == fraction) by {
        vstd::arithmetic::div_mod::lemma_fundamental_div_mod_converse(
            bits as int,
            HIDDEN_BIT as int,
            field as int,
            fraction as int,
        );
    }
}

/// Zero is the double whose bits are all clear.
pub proof fn lemma_whole_cost_zero()
    ensures
        whole_cost(0) == (Cost { mantissa: 0u64, exponent: -1075i16, sign: 1i8 }),
        is_finite(whole_bits_of(0)),
{
}

/// `2^53` is the double with the mantissa `2^52` and the exponent 1.
pub proof fn lemma_whole_cost_limit()
    ensures
        whole_cost(COST_LIMIT as nat) == (Cost {
            mantissa: 0x10_0000_0000_0000u64,
            exponent: 1i16,
            sign: 1i8,
        }),
        is_finite(whole_bits_of(COST_LIMIT as nat)),
{
}

/// Whole numbers up to `COST_LIMIT` are ordered as their costs are.
pub proof fn lemma_whole_cost_increases(a: nat, b: nat)
    requires
        a < b <= COST_LIMIT,
    ensures
        whole_cost(a).lt(whole_cost(b)),
{
    if a == 0 {
        lemma_whole_cost_zero();
    } else {
        lemma_whole_cost(a);
    }
    if b == COST_LIMIT {
        lemma_whole_cost_limit();
    } else {
        lemma_whole_cost(b);
        if a > 0 {
            let sa = shift_of(a);
            let sb = shift_of(b);
            if sa < sb {
                lemma_pow2_strictly_increases(sa, sb);
                lemma_pow2_unfold(sa + 1);
                if sa + 1 < sb {
                    lemma_pow2_strictly_increases(sa + 1, sb);
                }
                assert(b * pow2(sb) >= 2 * (a * pow2(sa))) by (nonlinear_arith)
                    requires
                        a < b,
                        pow2(sb) >= 2 * pow2(sa),
                ;
            } else if sa == sb {
                lemma2_to64();
                vstd::arithmetic::power2::lemma_pow2_pos(sa);
                assert(a * pow2(sa) < b * pow2(sa)) by (nonlinear_arith)
                    requires
                        a < b,
                        pow2(sa) > 0,
                ;
            }
        }
    }
}

/// The bit pattern of the double that equals the whole number `n`.
pub fn whole_bits(n: u64) -> (bits: u64)
    requires
        n <= COST_LIMIT,
    ensures
        bits == whole_bits_of(n as nat),
{
    if n == 0 {
        return 0;
    }
    if n == COST_LIMIT {
        return COST_LIMIT_BITS;
    }
    let mut mantissa: u64 = n;
    let mut field: u64 = 1075;
    proof {
        lemma_shift_of(n as nat);
        lemma2_to64();
        assert(n * pow2(0) == n) by (nonlinear_arith)
            requires
                pow2(0) == 1,
        ;
    }
    while mantissa < HIDDEN_BIT
        invariant
            0 < n < COST_LIMIT,
            1075 - field + shift_of(mantissa as nat) == shift_of(n as nat),
            mantissa == n * pow2((1075 - field) as nat),
            0 < mantissa < COST_LIMIT,
            1023 <= field <= 1075,
            shift_of(n as nat) <= 52,
        decreases COST_LIMIT - mantissa,
    {
        proof {
            lemma_pow2_unfold((1075 - field + 1) as nat);
            assert((1075 - field + 1) as nat == (1075 - field) as nat + 1);
            let doublings = (1075 - field) as nat;
            assert(n * pow2(doublings + 1) == 2 * (n * pow2(doublings))) by (nonlinear_arith)
                requires
                    pow2(doublings + 1) == 2 * pow2(doublings),
            ;
        }
        mantissa = mantissa * 2;
        field = field - 1;
    }
    field * HIDDEN_BIT + (mantissa - HIDDEN_BIT)
}

/// An item of a [`MinPriorityQueue`] with the cost that orders it.
#[derive(Debug, PartialEq, Eq)]
pub struct MinPriorityItem<T> {
    pub item: T,
    pub cost: Cost,
}

/// The index of the entry above entry `i` of a binary heap.
pub open spec fn parent(i: int) -> int {
    (i - 1) / 2
}

/// Every entry but the first costs at least as much as the entry above it.
pub open spec fn heap_ordered<T>(entries: Seq<MinPriorityItem<T>>) -> bool {
    forall|i: int|
        0 < i < entries.len() ==> (#[trigger] entries[parent(i)]).cost.le(entries[i].cost)
}

/// `entries` with the entries at `a` and `b` exchanged.
pub open spec fn exchanged<T>(entries: Seq<T>, a: int, b: int) -> Seq<T> {
    entries.update(a, entries[b]).update(b, entries[a])
}

/// `<[T]>::swap`: exchanges the elements at `a` and `b` and leaves the rest
/// of the slice alone. Out of bounds it panics, so both indices are required
/// to be in bounds.
pub assume_specification<Elem>[ <[Elem]>::swap ](slice: &mut [Elem], a: usize, b: usize)
    requires
        a < old(slice)@.len(),
        b < old(slice)@.len(),
    ensures
        final(slice)@ == exchanged(old(slice)@, a as int, b as int),
;

/// Exchanging two entries keeps the collection of entries.
pub proof fn lemma_exchanged_multiset<T>(entries: Seq<T>, a: int, b: int)
    requires
        0 <= a < entries.len(),
        0 <= b < entries.len(),
    ensures
        exchanged(entries, a, b).to_multiset() == entries.to_multiset(),
        exchanged(entries, a, b).len() == entries.len(),
{
    broadcast use vstd::seq_lib::group_to_multiset_ensures;
    let mid = entries.update(a, entries[b]);
    vstd::seq_lib::to_multiset_update(entries, a, entries[b]);
    vstd::seq_lib::to_multiset_update(mid, b, entries[a]);
    assert(entries.to_multiset().contains(entries[a]));
    assert(entries.to_multiset().contains(entries[b]));
    assert(exchanged(entries, a, b).to_multiset() =~= entries.to_multiset());
}

/// The heap order holds everywhere but between entry `i` and the entry
/// above it.
pub open spec fn ordered_but_above<T>(entries: Seq<MinPriorityItem<T>>, i: int) -> bool {
    forall|j: int|
        0 < j < entries.len() && j != i ==> (#[trigger] entries[parent(j)]).cost.le(entries[j].cost)
}

/// The heap order holds everywhere but between entry `i` and the entries
/// below it.
pub open spec fn ordered_but_below<T>(entries: Seq<MinPriorityItem<T>>, i: int) -> bool {
    forall|j: int|
        0 < j < entries.len() && parent(j) != i ==> (#[trigger] entries[parent(j)]).cost.le(
            entries[j].cost,
        )
}

/// The entries below entry `i` cost no less than the entry above it.
pub open spec fn ordered_across<T>(entries: Seq<MinPriorityItem<T>>, i: int) -> bool {
    forall|j: int|
        0 < j < entries.len() && parent(j) == i && i > 0 ==> entries[parent(i)].cost.le(
            (#[trigger] entries[j]).cost,
        )
}

/// Moves the entry at `start` towards the front until the entry above it no
/// longer costs more.
fn sift_up<T>(heap: &mut Vec<MinPriorityItem<T>>, start: usize)
    requires
        start < old(heap)@.len(),
        ordered_but_above(old(heap)@, start as int),
        ordered_across(old(heap)@, start as int),
    ensures
        heap_ordered(final(heap)@),
        final(heap)@.to_multiset() == old(heap)@.to_multiset(),
        final(heap)@.len() == old(heap)@.len(),
{
    let mut i: usize = start;
    while i > 0
        invariant
            i < heap@.len(),
            heap@.len() == old(heap)@.len(),
            heap@.to_multiset() == old(heap)@.to_multiset(),
            ordered_but_above(heap@, i as int),
            ordered_across(heap@, i as int),
        ensures
            heap_ordered(heap@),
        decreases i,
    {
        let above: usize = (i - 1) / 2;
        if !heap[i].cost.precedes(&heap[above].cost) {
            break ;
        }
        let ghost before = heap@;
        heap.as_mut_slice().swap(i, above);
        proof {
            lemma_exchanged_multiset(before, i as int, above as int);
            assert forall|j: int| 0 < j < heap@.len() && j != above implies (
            #[trigger] heap@[parent(j)]).cost.le(heap@[j].cost) by {
                if j != i {
                    assert(before[parent(j)].cost.le(before[j].cost));
                    if parent(j) == i {
                        assert(before[parent(i as int)].cost.le(before[j].cost));
                    }
                }
            }
            assert forall|j: int| 0 < j < heap@.len() && parent(j) == above && above > 0 implies (
            heap@[parent(above as int)]).cost.le((#[trigger] heap@[j]).cost) by {
                assert(before[parent(above as int)].cost.le(before[above as int].cost));
                if j != i {
                    assert(before[parent(j)].cost.le(before[j].cost));
                }
            }
        }
        i = above;
    }
}

/// Moves the first entry towards the back until neither entry below it costs
/// less.
fn sift_down<T>(heap: &mut Vec<MinPriorityItem<T>>)
    requires
        ordered_but_below(old(heap)@, 0),
    ensures
        heap_ordered(final(heap)@),
        final(heap)@.to_multiset() == old(heap)@.to_multiset(),
        final(heap)@.len() == old(heap)@.len(),
{
    let len: usize = heap.len();
    let mut i: usize = 0;
    while i < len / 2
        invariant
            len == heap@.len(),
            heap@.len() == old(heap)@.len(),
            heap@.to_multiset() == old(heap)@.to_multiset(),
            ordered_but_below(heap@, i as int),
            ordered_across(heap@, i as int),
        ensures
            heap_ordered(heap@),
        decreases len - i,
    {
        let left: usize = 2 * i + 1;
        let right: usize = left + 1;
        let below: usize = if right < len && heap[right].cost.precedes(&heap[left].cost) {
            right
        } else {
            left
        };
        if !heap[below].cost.precedes(&heap[i].cost) {
            assert forall|j: int| 0 < j < heap@.len() implies (#[trigger] heap@[parent(
                j,
            )]).cost.le(heap@[j].cost) by {
                if parent(j) == i {
                    assert(j == left || j == right);
                }
            }
            break ;
        }
        let ghost before = heap@;
        heap.as_mut_slice().swap(i, below);
        proof {
            lemma_exchanged_multiset(before, i as int, below as int);
            assert forall|j: int| 0 < j < heap@.len() && parent(j) != below implies (
            #[trigger] heap@[parent(j)]).cost.le(heap@[j].cost) by {
                if parent(j) == i {
                    assert(j == left || j == right);
                    if j != below {
                        assert(before[below as int].cost.le(before[j].cost));
                    }
                } else if j == i {
                    assert(before[parent(i as int)].cost.le(before[below as int].cost));
                } else {
                    assert(before[parent(j)].cost.le(before[j].cost));
                }
            }
            assert forall|j: int| 0 < j < heap@.len() && parent(j) == below && below > 0 implies (
            heap@[parent(below as int)]).cost.le((#[trigger] heap@[j]).cost) by {
                assert(before[parent(j)].cost.le(before[j].cost));
            }
        }
        i = below;
    }
}

/// Adds `entry` to a heap.
fn insert_entry<T>(heap: &mut Vec<MinPriorityItem<T>>, entry: MinPriorityItem<T>)
    requires
        heap_ordered(old(heap)@),
    ensures
        heap_ordered(final(heap)@),
        final(heap)@.to_multiset() == old(heap)@.to_multiset().insert(entry),
        final(heap)@.len() == old(heap)@.len() + 1,
{
    let ghost before = heap@;
    heap.push(entry);
    proof {
        broadcast use vstd::seq_lib::group_to_multiset_ensures;

        assert forall|j: int| 0 < j < heap@.len() && j != before.len() implies (
        #[trigger] heap@[parent(j)]).cost.le(heap@[j].cost) by {
            assert(before[parent(j)].cost.le(before[j].cost));
        }
    }
    let last: usize = heap.len() - 1;
    sift_up(heap, last);
}

/// Takes the first entry, the cheapest, out of a heap that is not empty.
fn remove_first<T>(heap: &mut Vec<MinPriorityItem<T>>) -> (first: MinPriorityItem<T>)
    requires
        heap_ordered(old(heap)@),
        old(heap)@.len() > 0,
    ensures
        first == old(heap)@[0],
        heap_ordered(final(heap)@),
        final(heap)@.to_multiset() == old(heap)@.to_multiset().remove(old(heap)@[0]),
        final(heap)@.len() == old(heap)@.len() - 1,
{
    let ghost before = heap@;
    let first = heap.swap_remove(0);
    proof {
        broadcast use vstd::seq_lib::group_to_multiset_ensures;

        let moved = before.update(0, before.last());
        vstd::seq_lib::to_multiset_update(before, 0, before.last());
        vstd::seq_lib::to_multiset_remove(moved, moved.len() - 1);
        assert(moved.remove(moved.len() - 1) =~= moved.drop_last());
        assert(before.to_multiset().contains(before.last()));
        assert(heap@.to_multiset() =~= before.to_multiset().remove(before[0]));
        assert forall|j: int| 0 < j < heap@.len() && parent(j) != 0 implies (
        #[trigger] heap@[parent(j)]).cost.le(heap@[j].cost) by {
            assert(before[parent(j)].cost.le(before[j].cost));
        }
    }
    sift_down(heap);
    first
}

/// A priority queue that hands out its cheapest entry first. Costs are
/// doubles, given by their bit patterns and ordered as [`Cost::lt`] orders
/// their parts. It is meant to hold at most `max_size` entries: a push onto a
/// queue of exactly that size first removes the cheapest entry. An empty
/// queue has nothing to remove, so a queue made with a `max_size` of 0 keeps
/// every entry until it is popped.
pub struct MinPriorityQueue<T> {
    heap: Vec<MinPriorityItem<T>>,
    max_size: usize,
}

impl<T> View for MinPriorityQueue<T> {
    type V = Seq<MinPriorityItem<T>>;

    /// The entries as the queue stores them; the first one leaves next.
    closed spec fn view(&self) -> Seq<MinPriorityItem<T>> {
        self.heap@
    }
}

impl<T> MinPriorityQueue<T> {
    /// The number of entries at which a push starts to remove the cheapest
    /// one.
    pub closed spec fn capacity(&self) -> nat {
        self.max_size as nat
    }

    /// The entries are stored as a binary heap. This holds of every queue.
    #[verifier::type_invariant]
    pub open spec fn wf(&self) -> bool {
        heap_ordered(self@)
    }

    /// What a pop leaves of the queue's entries.
    pub open spec fn without_first(&self) -> Multiset<MinPriorityItem<T>> {
        if self@.len() > 0 {
            self@.to_multiset().remove(self@[0])
        } else {
            self@.to_multiset()
        }
    }

    /// An empty queue that is meant for at most `max_size` entries.
    pub fn new(max_size: usize) -> (queue: MinPriorityQueue<T>)
        ensures
            queue.wf(),
            queue@ == Seq::<MinPriorityItem<T>>::empty(),
            queue.capacity() == max_size,
    {
        MinPriorityQueue { heap: Vec::new(), max_size }
    }

    /// Adds `item` at the cost whose bit pattern is `cost`. A cost that is
    /// infinite or not a number is refused and the queue stays as it was. A
    /// queue that holds exactly `max_size` entries loses its cheapest one
    /// before the new entry goes in.
    pub fn push(&mut self, item: T, cost: u64) -> (pushed: Result<(), Error>)
        ensures
            final(self).wf(),
            final(self).capacity() == old(self).capacity(),
            !is_finite(cost) ==> pushed == Err::<(), Error>(Error::NonFiniteCost) && final(self)@
                == old(self)@,
            is_finite(cost) ==> pushed == Ok::<(), Error>(()) && final(self)@.to_multiset() == (
            if old(self)@.len() == old(self).capacity() {
                old(self).without_first()
            } else {
                old(self)@.to_multiset()
            }).insert((MinPriorityItem { item, cost: Cost::of_bits(cost) })),
            is_finite(cost) ==> final(self)@.len() == if old(self)@.len() == old(self).capacity()
                && old(self)@.len() > 0 {
                old(self)@.len()
            } else {
                old(self)@.len() + 1
            },
    {
        proof {
            use_type_invariant(&*self);
        }
        if !finite_bits(cost) {
            return Err(Error::NonFiniteCost);
        }
        let min_item = MinPriorityItem { item, cost: Cost::from_bits(cost) };
        if self.heap.len() == self.max_size {
            let _ = self.pop();
        }
        proof {
            use_type_invariant(&*self);
        }
        let mut heap: Vec<MinPriorityItem<T>> = Vec::new();
        core::mem::swap(&mut self.heap, &mut heap);
        insert_entry(&mut heap, min_item);
        core::mem::swap(&mut self.heap, &mut heap);
        Ok(())
    }

    /// Removes the cheapest entry and returns its item; `None` when the queue
    /// is empty. No entry of the queue costs less than the one that leaves.
    pub fn pop(&mut self) -> (popped: Option<T>)
        ensures
            final(self).wf(),
            final(self).capacity() == old(self).capacity(),
            old(self)@.len() == 0 ==> popped == None::<T> && final(self)@ == old(self)@,
            old(self)@.len() > 0 ==> popped == Some(old(self)@[0].item),
            final(self)@.to_multiset() == old(self).without_first(),
            forall|i: int|
                0 <= i < old(self)@.len() ==> old(self)@[0].cost.le(
                    #[trigger] old(self)@[i].cost,
                ),
            final(self)@.len() > 0 ==> old(self)@[0].cost.le(final(self)@[0].cost),
            old(self)@.len() > 0 ==> final(self)@.len() == old(self)@.len() - 1,
    {
        proof {
            use_type_invariant(&*self);
            lemma_first_is_least(self.heap@);
        }
        if self.heap.len() == 0 {
            return None;
        }
        let ghost before = self.heap@;
        let mut heap: Vec<MinPriorityItem<T>> = Vec::new();
        core::mem::swap(&mut self.heap, &mut heap);
        let first = remove_first(&mut heap);
        core::mem::swap(&mut self.heap, &mut heap);
        proof {
            if self.heap@.len() > 0 {
                lemma_pops_ascend(before, self.heap@);
            }
        }
        Some(first.item)
    }

    /// The number of entries at which a push starts to remove the cheapest
    /// one.
    pub fn max_size(&self) -> (max_size: usize)
        ensures
            max_size == self.capacity(),
    {
        self.max_size
    }

    /// The number of entries in the queue.
    pub fn len(&self) -> (len: usize)
        ensures
            len == self@.len(),
    {
        self.heap.len()
    }

    /// The entries in the order in which the queue stores them, the cheapest
    /// first and the rest in no particular order.
    pub fn iter(&self) -> (entries: &[MinPriorityItem<T>])
        ensures
            entries@ == self@,
    {
        self.heap.as_slice()
    }
}

/// In a heap no entry costs less than the first.
pub proof fn lemma_first_is_least<T>(entries: Seq<MinPriorityItem<T>>)
    requires
        heap_ordered(entries),
    ensures
        forall|i: int| 0 <= i < entries.len() ==> entries[0].cost.le(#[trigger] entries[i].cost),
{
    assert forall|i: int| 0 <= i < entries.len() implies entries[0].cost.le(
        #[trigger] entries[i].cost,
    ) by {
        lemma_first_before(entries, i);
    }
}

proof fn lemma_first_before<T>(entries: Seq<MinPriorityItem<T>>, i: int)
    requires
        heap_ordered(entries),
        0 <= i < entries.len(),
    ensures
        entries[0].cost.le(entries[i].cost),
    decreases i,
{
    if i > 0 {
        lemma_first_before(entries, parent(i));
        assert(entries[parent(i)].cost.le(entries[i].cost));
    }
}

/// What is popped second costs no less than what was popped first: the
/// first entry of a heap costs no more than the first entry of the heap
/// that is left without it.
pub proof fn lemma_pops_ascend<T>(before: Seq<MinPriorityItem<T>>, after: Seq<MinPriorityItem<T>>)
    requires
        heap_ordered(before),
        before.len() > 0,
        after.len() > 0,
        after.to_multiset() == before.to_multiset().remove(before[0]),
    ensures
        before[0].cost.le(after[0].cost),
{
    broadcast use vstd::seq_lib::group_to_multiset_ensures;
    lemma_first_is_least(before);
    assert(after.contains(after[0]));
    assert(after.to_multiset().count(after[0]) > 0);
    assert(before.to_multiset().count(after[0]) > 0);
    assert(before.contains(after[0]));
    let i = choose|i: int| 0 <= i < before.len() && before[i] == after[0];
    assert(before[0].cost.le(before[i].cost));
}

} // verus!
