use vstd::prelude::*;

use crate::bits::{bit_slots, bits_empty, bits_new_zeroed, bits_read_slot, bits_write_slot, BitBuf};
use crate::block_data::BlockData;
use crate::integer_log2;
use vstd::arithmetic::power2::{lemma2_to64, lemma_pow2_adds, lemma_pow2_strictly_increases, pow2};
use vstd::pervasive::VecAdditionalExecFns;

verus! {

/// Initial number of palette entries allocated on the first non-default write.
pub const DEFAULT_CAPACITY: usize = 32;

/// One palette entry: a distinct value and how many virtual elements hold it.
#[derive(Copy, Clone)]
pub struct PaletteEntry<T> {
    pub value: T,
    pub ref_count: usize,
}

/// How many elements of `s` equal `v`.
pub open spec fn count_eq(s: Seq<usize>, v: int) -> nat
    decreases s.len(),
{
    if s.len() == 0 {
        0
    } else {
        count_eq(s.drop_last(), v) + (if s.last() as int == v {
            1nat
        } else {
            0nat
        })
    }
}

/// How many entries are live (referenced by at least one virtual element).
pub open spec fn live_count<T>(es: Seq<PaletteEntry<T>>) -> nat
    decreases es.len(),
{
    if es.len() == 0 {
        0
    } else {
        live_count(es.drop_last()) + (if es.last().ref_count > 0 {
            1nat
        } else {
            0nat
        })
    }
}

/// The sum of all reference counts.
pub open spec fn ref_sum<T>(es: Seq<PaletteEntry<T>>) -> nat
    decreases es.len(),
{
    if es.len() == 0 {
        0
    } else {
        ref_sum(es.drop_last()) + es.last().ref_count as nat
    }
}

pub proof fn lemma_count_eq_le_len(s: Seq<usize>, v: int)
    ensures
        count_eq(s, v) <= s.len(),
    decreases s.len(),
{
    if s.len() > 0 {
        lemma_count_eq_le_len(s.drop_last(), v);
    }
}

pub proof fn lemma_count_eq_update(s: Seq<usize>, i: int, v: usize, j: int)
    requires
        0 <= i < s.len(),
    ensures
        count_eq(s.update(i, v), j) as int == count_eq(s, j) as int - (if s[i] as int == j {
            1int
        } else {
            0int
        }) + (if v as int == j {
            1int
        } else {
            0int
        }),
    decreases s.len(),
{
    let t = s.update(i, v);
    if i == s.len() - 1 {
        assert(t.drop_last() =~= s.drop_last());
        assert(t.last() == v);
    } else {
        assert(t.drop_last() =~= s.drop_last().update(i, v));
        lemma_count_eq_update(s.drop_last(), i, v, j);
        assert(t.last() == s.last());
        assert(s.drop_last()[i] == s[i]);
    }
}

pub proof fn lemma_count_eq_none(s: Seq<usize>, j: int)
    ensures
        (count_eq(s, j) == 0) <==> (forall|i: int|
            0 <= i < s.len() ==> (#[trigger] s[i]) as int != j),
    decreases s.len(),
{
    if s.len() > 0 {
        lemma_count_eq_none(s.drop_last(), j);
        assert(forall|i: int| 0 <= i < s.len() - 1 ==> s.drop_last()[i] == s[i]);
        assert(s.last() == s[s.len() - 1]);
    }
}

/// If `s[i]` is the only occurrence of `j`, no other position holds `j`.
pub proof fn lemma_count_eq_unique(s: Seq<usize>, i: int, j: int)
    requires
        0 <= i < s.len(),
        s[i] as int == j,
        count_eq(s, j) == 1,
    ensures
        forall|k: int| 0 <= k < s.len() && k != i ==> (#[trigger] s[k]) as int != j,
{
    let other: usize = if j == 0 {
        1
    } else {
        0
    };
    let t = s.update(i, other);
    lemma_count_eq_update(s, i, other, j);
    assert(count_eq(t, j) == 0);
    lemma_count_eq_none(t, j);
    assert(forall|k: int| 0 <= k < s.len() && k != i ==> s[k] == t[k]);
}

/// Counting over a constant sequence.
pub proof fn lemma_count_eq_const(n: nat, c: usize, j: int)
    ensures
        count_eq(Seq::new(n, |i: int| c), j) == if c as int == j {
            n
        } else {
            0nat
        },
    decreases n,
{
    let s = Seq::new(n, |i: int| c);
    if n > 0 {
        lemma_count_eq_const((n - 1) as nat, c, j);
        assert(s.drop_last() =~= Seq::new((n - 1) as nat, |i: int| c));
        assert(s.last() == c);
    }
}

pub proof fn lemma_entry_seq_update<T>(es: Seq<PaletteEntry<T>>, i: int, e: PaletteEntry<T>)
    requires
        0 <= i < es.len(),
    ensures
        live_count(es.update(i, e)) as int == live_count(es) as int - (if es[i].ref_count > 0 {
            1int
        } else {
            0int
        }) + (if e.ref_count > 0 {
            1int
        } else {
            0int
        }),
        ref_sum(es.update(i, e)) as int == ref_sum(es) as int - es[i].ref_count + e.ref_count,
    decreases es.len(),
{
    let t = es.update(i, e);
    if i == es.len() - 1 {
        assert(t.drop_last() =~= es.drop_last());
        assert(t.last() == e);
    } else {
        assert(t.drop_last() =~= es.drop_last().update(i, e));
        lemma_entry_seq_update(es.drop_last(), i, e);
        assert(t.last() == es.last());
        assert(es.drop_last()[i] == es[i]);
    }
}

pub proof fn lemma_entry_seq_push<T>(es: Seq<PaletteEntry<T>>, e: PaletteEntry<T>)
    ensures
        live_count(es.push(e)) == live_count(es) + (if e.ref_count > 0 {
            1nat
        } else {
            0nat
        }),
        ref_sum(es.push(e)) == ref_sum(es) + e.ref_count,
{
    assert(es.push(e).drop_last() =~= es);
    assert(es.push(e).last() == e);
}

pub proof fn lemma_live_le_len<T>(es: Seq<PaletteEntry<T>>)
    ensures
        live_count(es) <= es.len(),
    decreases es.len(),
{
    if es.len() > 0 {
        lemma_live_le_len(es.drop_last());
    }
}

/// A live entry makes the live count positive.
pub proof fn lemma_live_member<T>(es: Seq<PaletteEntry<T>>, i: int)
    requires
        0 <= i < es.len(),
        es[i].ref_count > 0,
    ensures
        live_count(es) > 0,
    decreases es.len(),
{
    if i == es.len() - 1 {
    } else {
        lemma_live_member(es.drop_last(), i);
    }
}

/// Without live entries the reference counts sum to zero.
pub proof fn lemma_no_live_no_refs<T>(es: Seq<PaletteEntry<T>>)
    requires
        live_count(es) == 0,
    ensures
        ref_sum(es) == 0,
    decreases es.len(),
{
    if es.len() > 0 {
        lemma_no_live_no_refs(es.drop_last());
    }
}

/// Live entries each contribute at least one reference.
pub proof fn lemma_live_le_sum<T>(es: Seq<PaletteEntry<T>>)
    ensures
        live_count(es) <= ref_sum(es),
    decreases es.len(),
{
    if es.len() > 0 {
        lemma_live_le_sum(es.drop_last());
    }
}

/// When every entry beyond the first is live, at most one entry is free.
pub proof fn lemma_live_lower<T>(es: Seq<PaletteEntry<T>>)
    requires
        forall|k: int| 1 <= k < es.len() ==> (#[trigger] es[k]).ref_count > 0,
    ensures
        live_count(es) >= es.len() - 1,
    decreases es.len(),
{
    if es.len() > 0 {
        assert(forall|k: int| 1 <= k < es.len() - 1 ==> es.drop_last()[k] == es[k]);
        lemma_live_lower(es.drop_last());
        if es.len() >= 2 {
            assert(es[es.len() - 1].ref_count > 0);
        }
    }
}

/// The capacity invariants of a well-formed palette store: the used entries
/// never outnumber the allocated ones, the reference counts sum to the store's
/// size as soon as a palette exists, the palette's length is zero or exactly
/// two to the power of the index bit width, and the bit buffer holds exactly
/// one slot per virtual element.
pub proof fn lemma_capacity_invariants<T: BlockData>(s: PaletteStore<T>)
    requires
        s.wf(),
    ensures
        s.used <= s.entries.len(),
        s.entries.len() > 0 ==> ref_sum(s.entries@) == s.size,
        s.entries.len() == 0 || s.entries.len() == pow2(s.bits_per_entry as nat),
        s.entries.len() > 0 ==> s.slot_seq().len() == s.size,
{
    lemma_live_le_len(s.entries@);
}

/// Re-encoding a sequence through a mapping that is injective on the live
/// indices preserves the occurrence counts of live values.
pub proof fn lemma_count_eq_map(
    s: Seq<usize>,
    t: Seq<usize>,
    f: Seq<usize>,
    alive: Seq<bool>,
    j: int,
)
    requires
        f.len() == alive.len(),
        t.len() == s.len(),
        forall|i: int| 0 <= i < s.len() ==> (#[trigger] s[i]) < f.len() && alive[s[i] as int],
        forall|i: int| 0 <= i < s.len() ==> (#[trigger] t[i]) == f[s[i] as int],
        0 <= j < f.len(),
        alive[j],
        forall|a: int, b: int|
            0 <= a < f.len() && 0 <= b < f.len() && alive[a] && alive[b] && (#[trigger] f[a])
                == (#[trigger] f[b]) ==> a == b,
    ensures
        count_eq(t, f[j] as int) == count_eq(s, j),
    decreases s.len(),
{
    if s.len() > 0 {
        assert(forall|i: int| 0 <= i < s.len() - 1 ==> s.drop_last()[i] == s[i]);
        assert(forall|i: int| 0 <= i < t.len() - 1 ==> t.drop_last()[i] == t[i]);
        lemma_count_eq_map(s.drop_last(), t.drop_last(), f, alive, j);
        assert(t.last() == f[s.last() as int]);
        assert((t.last() as int == f[j] as int) <==> (s.last() as int == j));
    }
}

pub proof fn lemma_pow2_le(a: nat, b: nat)
    requires
        a <= b,
    ensures
        pow2(a) <= pow2(b),
{
    if a < b {
        lemma_pow2_strictly_increases(a, b);
    }
}

/// Computes a power of two.
fn pow2_exec(k: usize) -> (r: usize)
    requires
        pow2(k as nat) <= usize::MAX,
    ensures
        r == pow2(k as nat),
{
    let mut r: usize = 1;
    let mut i: usize = 0;
    proof {
        lemma2_to64();
    }
    while i < k
        invariant
            i <= k,
            r == pow2(i as nat),
            pow2(k as nat) <= usize::MAX,
        decreases k - i,
    {
        proof {
            lemma_pow2_adds(i as nat, 1);
            lemma2_to64();
            lemma_pow2_le(i as nat + 1, k as nat);
        }
        r = r * 2;
        i = i + 1;
    }
    r
}

/// The smallest bit width whose palette capacity holds `c` entries.
fn bits_for(c: usize) -> (b: usize)
    requires
        c <= 0x8000_0000,
    ensures
        pow2(b as nat) >= c,
        b <= 31,
        c >= 2 ==> pow2((b - 1) as nat) < c,
        c <= 1 ==> b == 0,
{
    if c <= 1 {
        proof {
            lemma2_to64();
        }
        0
    } else {
        let l = integer_log2(c - 1);
        proof {
            lemma2_to64();
            if l > 30 {
                lemma_pow2_le(31, l as nat);
                assert(false);
            }
        }
        (l as usize) + 1
    }
}

/// A linear array of `size` virtual elements of type `T`, physically storing
/// one small palette index per element in a compact bit buffer, together with
/// a palette of distinct values and their reference counts.
pub struct PaletteStore<T: BlockData> {
    /// Number of virtual elements stored in this data structure.
    pub size: usize,
    /// Bit buffer storing `bits_per_entry` bits per virtual element: its index
    /// into `entries`.
    pub bits: BitBuf,
    /// Current number of bits for each virtual element in `bits`.
    pub bits_per_entry: usize,
    /// The palette entries.
    pub entries: Vec<PaletteEntry<T>>,
    /// Number of palette entries currently in use (`ref_count > 0`).
    pub used: usize,
}

impl<T: BlockData> PaletteStore<T> {
    /// The palette index of each virtual element.
    pub open spec fn slot_seq(self) -> Seq<usize> {
        bit_slots(self.bits, self.bits_per_entry as nat)
    }

    /// Structural well-formedness: the palette, the bit buffer and the counters
    /// agree with one another.
    pub open spec fn wf(self) -> bool {
        &&& self.size <= 0x4000_0000
        &&& self.size * 32 <= usize::MAX
        &&& self.bits_per_entry <= 32
        &&& (self.entries.len() == 0 ==> self.bits_per_entry == 0 && self.used == 0)
        &&& (self.entries.len() > 0 ==> {
            &&& 1 <= self.bits_per_entry
            &&& self.entries.len() == pow2(self.bits_per_entry as nat)
            &&& self.slot_seq().len() == self.size
            &&& (forall|i: int|
                0 <= i < self.size ==> (#[trigger] self.slot_seq()[i]) < self.entries.len())
            &&& (forall|j: int|
                0 <= j < self.entries.len() ==> (#[trigger] self.entries[j].ref_count)
                    == count_eq(self.slot_seq(), j))
            &&& self.entries[0].value == T::default_spec()
            &&& (forall|j: int|
                0 <= j < self.entries.len() && (#[trigger] self.entries[j].ref_count) == 0
                    ==> self.entries[j].value == T::default_spec())
            &&& self.used == live_count(self.entries@)
            &&& ref_sum(self.entries@) == self.size
        })
    }

    /// The virtual contents: what `get` observes at each index.
    pub open spec fn contents(self) -> Seq<T> {
        Seq::new(
            self.size as nat,
            |i: int|
                if self.entries.len() == 0 {
                    T::default_spec()
                } else {
                    self.entries[self.slot_seq()[i] as int].value
                },
        )
    }

    /// Creates a new palette store with the specified number of virtual
    /// elements; no palette or bit buffer is allocated yet.
    pub fn new(size: usize) -> (r: PaletteStore<T>)
        requires
            size <= 0x4000_0000,
            size * 32 <= usize::MAX,
        ensures
            r.wf(),
            r.size == size,
            r.used == 0,
            r.entries.len() == 0,
            r.bits_per_entry == 0,
            r.contents() =~= Seq::new(size as nat, |i: int| T::default_spec()),
    {
        PaletteStore {
            size,
            bits: bits_empty(),
            bits_per_entry: 0,
            entries: Vec::new(),
            used: 0,
        }
    }

    /// Gets the number of virtual elements stored in this data structure.
    pub fn size(&self) -> (r: usize)
        ensures
            r == self.size,
    {
        self.size
    }

    /// Gets the number of currently used palette entries.
    pub fn used_entries(&self) -> (r: usize)
        ensures
            r == self.used,
    {
        self.used
    }

    /// Gets the number of free palette entries before the palette needs to grow.
    pub fn free_entries(&self) -> (r: usize)
        requires
            self.wf(),
        ensures
            r == self.entries.len() - self.used,
    {
        proof {
            lemma_live_le_len(self.entries@);
        }
        self.entries.len() - self.used
    }

    /// Current bit width of each virtual element's palette index.
    pub fn bits_per_entry(&self) -> (r: usize)
        ensures
            r == self.bits_per_entry,
    {
        self.bits_per_entry
    }

    /// Number of allocated palette entries.
    pub fn capacity(&self) -> (r: usize)
        ensures
            r == self.entries.len(),
    {
        self.entries.len()
    }

    /// The value and reference count of palette entry `j`.
    pub fn palette_entry(&self, j: usize) -> (r: PaletteEntry<T>)
        requires
            j < self.entries.len(),
        ensures
            r == self.entries[j as int],
    {
        self.entries[j]
    }

    /// The palette index stored for virtual element `index`.
    pub fn get_palette_index(&self, index: usize) -> (r: usize)
        requires
            self.wf(),
            index < self.size,
            self.entries.len() > 0,
        ensures
            r == self.slot_seq()[index as int],
    {
        bits_read_slot(&self.bits, index, self.bits_per_entry)
    }

    /// Changes the bit width of the stored palette indices to `num_bits`,
    /// reallocating the bit buffer and the palette while preserving the
    /// virtual contents. Growing is always possible; shrinking requires the
    /// used entries to fit the smaller palette.
    pub fn set_bits_per_entry(&mut self, num_bits: usize)
        requires
            old(self).wf(),
            num_bits <= 32,
            pow2(num_bits as nat) <= usize::MAX,
            num_bits < old(self).bits_per_entry ==> 1 <= num_bits && old(self).used < pow2(
                num_bits as nat,
            ),
        ensures
            final(self).wf(),
            final(self).contents() == old(self).contents(),
            final(self).size == old(self).size,
            num_bits == old(self).bits_per_entry ==> *final(self) == *old(self),
            num_bits != old(self).bits_per_entry ==> final(self).bits_per_entry == num_bits
                && final(self).entries.len() == pow2(num_bits as nat),
            old(self).entries.len() > 0 && num_bits > old(self).bits_per_entry ==> ({
                &&& final(self).slot_seq() == old(self).slot_seq()
                &&& forall|j: int|
                    0 <= j < old(self).entries.len() ==> (#[trigger] final(self).entries[j])
                        == old(self).entries[j]
                &&& forall|j: int|
                    old(self).entries.len() <= j < final(self).entries.len() ==> ((
                    #[trigger] final(self).entries[j]).ref_count == 0
                        && final(self).entries[j].value == T::default_spec())
            }),
            final(self).used == if old(self).entries.len() == 0 && num_bits > 0 && old(self).size
                > 0 {
                1usize
            } else {
                old(self).used
            },
            old(self).entries.len() == 0 && num_bits != 0 ==> ({
                &&& (forall|j: int|
                    0 <= j < final(self).entries.len() ==> #[trigger] final(self).entries[j] == (
                    if j == 0 {
                        PaletteEntry { value: T::default_spec(), ref_count: old(self).size }
                    } else {
                        PaletteEntry { value: T::default_spec(), ref_count: 0usize }
                    }))
                &&& final(self).slot_seq() == Seq::new(old(self).size as nat, |i: int| 0usize)
            }),
    {
        if num_bits == self.bits_per_entry {
            return ;
        }
        proof {
            vstd::arithmetic::power2::lemma_pow2_pos(num_bits as nat);
            assert(self.size * num_bits <= self.size * 32) by (nonlinear_arith)
                requires
                    num_bits <= 32,
                    self.size >= 0,
            ;
        }
        if self.entries.is_empty() {
            // First allocation: a zeroed bit buffer, the whole store referencing
            // palette entry 0, which holds the default value.
            self.bits = bits_new_zeroed(self.size, num_bits);
            self.bits_per_entry = num_bits;
            let cap = pow2_exec(num_bits);
            let mut es: Vec<PaletteEntry<T>> = Vec::new();
            es.push(PaletteEntry { value: T::default_value(), ref_count: self.size });
            proof {
                lemma_entry_seq_push(Seq::<PaletteEntry<T>>::empty(), es@[0]);
            }
            while es.len() < cap
                invariant
                    1 <= es.len() <= cap,
                    es@[0].value == T::default_spec() && es@[0].ref_count == self.size,
                    forall|j: int|
                        1 <= j < es.len() ==> (#[trigger] es@[j]).ref_count == 0
                            && es@[j].value == T::default_spec(),
                    live_count(es@) == if self.size > 0 {
                        1nat
                    } else {
                        0nat
                    },
                    ref_sum(es@) == self.size,
                decreases cap - es.len(),
            {
                let e = PaletteEntry { value: T::default_value(), ref_count: 0 };
                proof {
                    lemma_entry_seq_push(es@, e);
                }
                es.push(e);
            }
            self.entries = es;
            self.used = if self.size > 0 {
                1
            } else {
                0
            };
            proof {
                let s = self.slot_seq();
                assert(s =~= Seq::new(self.size as nat, |i: int| 0usize));
                assert forall|j: int| 0 <= j < self.entries.len() implies (
                #[trigger] self.entries[j].ref_count) == count_eq(s, j) by {
                    lemma_count_eq_const(self.size as nat, 0usize, j);
                }
                assert(self.contents() =~= old(self).contents());
            }
        } else if num_bits > self.bits_per_entry {
            // Grow: copy every palette index into a wider zeroed buffer, then
            // pad the palette with unused default entries.
            let ob = self.bits_per_entry;
            let ghost s0 = self.slot_seq();
            let mut buf = bits_new_zeroed(self.size, num_bits);
            proof {
                lemma_pow2_strictly_increases(ob as nat, num_bits as nat);
            }
            let mut i: usize = 0;
            while i < self.size
                invariant
                    i <= self.size,
                    self.wf(),
                    self.entries.len() > 0,
                    self.bits_per_entry == ob,
                    1 <= num_bits <= 32,
                    pow2(ob as nat) < pow2(num_bits as nat),
                    s0 == self.slot_seq(),
                    bit_slots(buf, num_bits as nat).len() == self.size,
                    forall|k: int|
                        0 <= k < i ==> (#[trigger] bit_slots(buf, num_bits as nat)[k]) == s0[k],
                decreases self.size - i,
            {
                let v = bits_read_slot(&self.bits, i, ob);
                bits_write_slot(&mut buf, i, num_bits, v);
                i = i + 1;
            }
            self.bits = buf;
            self.bits_per_entry = num_bits;
            let cap = pow2_exec(num_bits);
            let ghost es0 = self.entries@;
            let ghost old_len = self.entries.len() as int;
            while self.entries.len() < cap
                invariant
                    es0.len() <= self.entries.len() <= cap,
                    old_len == es0.len(),
                    self.size == old(self).size,
                    self.used == old(self).used,
                    self.bits_per_entry == num_bits,
                    self.slot_seq().len() == self.size,
                    forall|k: int| 0 <= k < self.size ==> (#[trigger] self.slot_seq()[k]) == s0[k],
                    forall|j: int| 0 <= j < es0.len() ==> (#[trigger] self.entries[j]) == es0[j],
                    forall|j: int|
                        es0.len() <= j < self.entries.len() ==> (
                        #[trigger] self.entries[j]).ref_count == 0 && self.entries[j].value
                            == T::default_spec(),
                    live_count(self.entries@) == live_count(es0),
                    ref_sum(self.entries@) == ref_sum(es0),
                decreases cap - self.entries.len(),
            {
                let e = PaletteEntry { value: T::default_value(), ref_count: 0 };
                proof {
                    lemma_entry_seq_push(self.entries@, e);
                }
                self.entries.push(e);
            }
            proof {
                let s1 = self.slot_seq();
                assert(s1 =~= s0);
                assert(s1 == s0);
                assert forall|j: int| 0 <= j < self.entries.len() implies (
                #[trigger] self.entries[j].ref_count) == count_eq(s1, j) by {
                    if j < old_len {
                    } else {
                        lemma_count_eq_none(s1, j);
                    }
                }
                assert(self.contents() =~= old(self).contents());
            }
        } else {
            // Shrink: compact the live entries towards the front of the
            // palette and re-encode every palette index through the mapping.
            self.shrink_to(num_bits);
        }
    }

    /// Shrinks the index bit width, compacting the live palette entries
    /// towards the front (entry 0 stays in place) and re-encoding every
    /// virtual element's palette index through the compaction mapping.
    fn shrink_to(&mut self, num_bits: usize)
        requires
            old(self).wf(),
            old(self).entries.len() > 0,
            1 <= num_bits < old(self).bits_per_entry,
            old(self).used < pow2(num_bits as nat),
            pow2(num_bits as nat) <= usize::MAX,
        ensures
            final(self).wf(),
            final(self).contents() == old(self).contents(),
            final(self).size == old(self).size,
            final(self).bits_per_entry == num_bits,
            final(self).entries.len() == pow2(num_bits as nat),
            final(self).used == old(self).used,
    {
        let old_len = self.entries.len();
        let ghost es0 = self.entries@;
        let ghost s0 = self.slot_seq();
        let ghost alive = Seq::new(es0.len(), |j: int| es0[j].ref_count > 0);
        // Build the compaction mapping and the compacted palette.
        let mut remap: Vec<usize> = Vec::new();
        let mut compacted: Vec<PaletteEntry<T>> = Vec::new();
        let ghost mut inv_map: Seq<int> = seq![0int];
        compacted.push(self.entries[0]);
        remap.push(0);
        proof {
            lemma_entry_seq_push(Seq::<PaletteEntry<T>>::empty(), es0[0]);
            assert(es0.take(1).drop_last() =~= Seq::<PaletteEntry<T>>::empty());
            assert(es0.take(1).last() == es0[0]);
        }
        let mut i: usize = 1;
        while i < old_len
            invariant
                1 <= i <= old_len,
                *self == *old(self),
                old_len == es0.len(),
                es0 == self.entries@,
                remap@.len() == i,
                remap@[0] == 0,
                compacted@.len() >= 1,
                compacted@[0] == es0[0],
                forall|j: int|
                    1 <= j < i && es0[j].ref_count > 0 ==> 1 <= (#[trigger] remap@[j])
                        < compacted@.len() && compacted@[remap@[j] as int] == es0[j],
                forall|j1: int, j2: int|
                    1 <= j1 < j2 < i && es0[j1].ref_count > 0 && es0[j2].ref_count > 0 ==> (
                    #[trigger] remap@[j1]) < (#[trigger] remap@[j2]),
                inv_map.len() == compacted@.len(),
                inv_map[0] == 0,
                forall|m: int|
                    1 <= m < inv_map.len() ==> 1 <= (#[trigger] inv_map[m]) < i
                        && es0[inv_map[m]].ref_count > 0 && remap@[inv_map[m]] as int == m
                        && compacted@[m] == es0[inv_map[m]],
                live_count(compacted@) == live_count(es0.take(i as int)),
                ref_sum(compacted@) == ref_sum(es0.take(i as int)),
                compacted@.len() as int == 1 + live_count(es0.take(i as int)) - (if es0[0].ref_count
                    > 0 {
                    1int
                } else {
                    0int
                }),
            decreases old_len - i,
        {
            proof {
                assert(es0.take(i + 1).drop_last() =~= es0.take(i as int));
                assert(es0.take(i + 1).last() == es0[i as int]);
            }
            let e = self.entries[i];
            if e.ref_count > 0 {
                remap.push(compacted.len());
                proof {
                    lemma_entry_seq_push(compacted@, e);
                    lemma_live_le_len(es0.take(i as int));
                }
                compacted.push(e);
                proof {
                    inv_map = inv_map.push(i as int);
                }
            } else {
                remap.push(0);
            }
            i = i + 1;
        }
        proof {
            assert(es0.take(old_len as int) =~= es0);
            lemma_live_le_len(es0);
        }
        // Pad the compacted palette to the new capacity.
        let cap = pow2_exec(num_bits);
        let ghost packed = compacted@;
        let ghost plen = packed.len() as int;
        assert(compacted.len() <= cap);
        while compacted.len() < cap
            invariant
                plen == packed.len(),
                plen <= compacted@.len() <= cap,
                forall|j: int| 0 <= j < plen ==> (#[trigger] compacted@[j]) == packed[j],
                forall|j: int|
                    plen <= j < compacted@.len() ==> (#[trigger] compacted@[j]).ref_count == 0
                        && compacted@[j].value == T::default_spec(),
                live_count(compacted@) == live_count(packed),
                ref_sum(compacted@) == ref_sum(packed),
            decreases cap - compacted.len(),
        {
            let e = PaletteEntry { value: T::default_value(), ref_count: 0 };
            proof {
                lemma_entry_seq_push(compacted@, e);
            }
            compacted.push(e);
        }
        // Re-encode every virtual element's palette index.
        let ghost cs = compacted@;
        proof {
            assert(forall|j: int| 0 <= j < plen ==> (#[trigger] cs[j]) == packed[j]);
        }
        let ob = self.bits_per_entry;
        proof {
            assert(self.size * num_bits <= self.size * 32) by (nonlinear_arith)
                requires
                    num_bits <= 32,
                    self.size >= 0,
            ;
        }
        let mut buf = bits_new_zeroed(self.size, num_bits);
        let mut k: usize = 0;
        while k < self.size
            invariant
                k <= self.size,
                *self == *old(self),
                old(self).wf(),
                old_len == es0.len(),
                es0 == self.entries@,
                s0 == self.slot_seq(),
                ob == self.bits_per_entry,
                1 <= ob <= 32,
                1 <= num_bits <= 32,
                cap == pow2(num_bits as nat),
                remap@.len() == old_len,
                remap@[0] == 0,
                cs == compacted@,
                cs.len() == cap,
                1 <= plen <= cap,
                cs[0] == es0[0],
                forall|j: int|
                    1 <= j < old_len && es0[j].ref_count > 0 ==> 1 <= (#[trigger] remap@[j]) && ((
                    remap@[j] as int) < plen) && cs[remap@[j] as int] == es0[j],
                bit_slots(buf, num_bits as nat).len() == self.size,
                forall|m: int|
                    0 <= m < k ==> (#[trigger] bit_slots(buf, num_bits as nat)[m]) == remap@[s0[m] as int],
            decreases self.size - k,
        {
            let pi = bits_read_slot(&self.bits, k, ob);
            proof {
                assert(s0[k as int] == pi);
                assert(self.entries[pi as int].ref_count == count_eq(s0, pi as int));
                lemma_count_eq_none(s0, pi as int);
                assert(es0[pi as int].ref_count > 0);
            }
            let npi = remap[pi];
            bits_write_slot(&mut buf, k, num_bits, npi);
            k = k + 1;
        }
        self.bits = buf;
        self.bits_per_entry = num_bits;
        self.entries = compacted;
        proof {
            let s1 = self.slot_seq();
            assert(s1.len() == self.size);
            // every old slot points at a live entry
            assert forall|m: int| 0 <= m < self.size implies 0 <= (#[trigger] s0[m]) < old_len
                && alive[s0[m] as int] by {
                lemma_count_eq_none(s0, s0[m] as int);
            }
            // the mapping is injective on the live indices
            assert forall|a: int, b: int|
                0 <= a < old_len && 0 <= b < old_len && alive[a] && alive[b] && (
                #[trigger] remap@[a]) == (#[trigger] remap@[b]) implies a == b by {
                if a != b {
                    if a == 0 {
                        assert(remap@[b] >= 1);
                    } else if b == 0 {
                        assert(remap@[a] >= 1);
                    }
                }
            }
            assert(forall|m: int|
                0 <= m < self.size ==> (#[trigger] s1[m]) == remap@[s0[m] as int]);
            // occurrence counts transfer through the mapping
            assert forall|j: int| 0 <= j < cs.len() implies (#[trigger] cs[j].ref_count)
                == count_eq(s1, j) by {
                if j == 0 {
                    if es0[0].ref_count > 0 {
                        lemma_count_eq_map(s0, s1, remap@, alive, 0);
                    } else {
                        assert forall|m: int| 0 <= m < s1.len() implies (#[trigger] s1[m]) as int
                            != 0 by {
                            let p = s0[m] as int;
                            if p == 0 {
                                assert(alive[0]);
                                assert(false);
                            } else {
                                assert(remap@[p] >= 1);
                            }
                        }
                        lemma_count_eq_none(s1, 0);
                        lemma_count_eq_none(s0, 0);
                        assert(count_eq(s0, 0) == es0[0].ref_count as nat);
                    }
                } else if j < plen {
                    // a compacted live entry: use its preimage
                    let p = inv_map[j];
                    assert(cs[j] == packed[j]);
                    assert(es0[p].ref_count > 0 && remap@[p] as int == j && packed[j] == es0[p]);
                    lemma_count_eq_map(s0, s1, remap@, alive, p);
                } else {
                    // padding: nothing maps here
                    assert forall|m: int| 0 <= m < s1.len() implies (#[trigger] s1[m]) as int
                        != j by {
                        let p = s0[m] as int;
                        if p == 0 {
                            assert(s1[m] as int == 0);
                        } else {
                            assert((remap@[p] as int) < plen);
                        }
                    }
                    lemma_count_eq_none(s1, j);
                }
            }
            // freed and padded entries hold the default value
            assert forall|j: int|
                0 <= j < cs.len() && (#[trigger] cs[j]).ref_count == 0 implies cs[j].value
                == T::default_spec() by {
                if 1 <= j < plen {
                    assert(cs[j] == packed[j]);
                    assert(es0[inv_map[j]].ref_count > 0);
                }
            }
            // the virtual contents are unchanged
            assert forall|m: int| 0 <= m < self.size implies self.contents()[m] == old(
                self,
            ).contents()[m] by {
                let p = s0[m] as int;
                assert(s1[m] == remap@[p]);
                if p == 0 {
                    assert(cs[0] == es0[0]);
                } else {
                    assert(cs[remap@[p] as int] == es0[p]);
                }
            }
            assert(self.contents() =~= old(self).contents());
        }
    }
    /// Reserves `additional` palette entries beyond the currently used ones,
    /// growing the index bit width as required. No effect if enough free
    /// entries exist already.
    pub fn reserve(&mut self, additional: usize)
        requires
            old(self).wf(),
            old(self).used + additional <= 0x8000_0000,
        ensures
            final(self).wf(),
            final(self).contents() == old(self).contents(),
            final(self).size == old(self).size,
            old(self).bits_per_entry <= final(self).bits_per_entry,
            old(self).used + additional <= old(self).entries.len() ==> *final(self) == *old(self),
            old(self).used + additional >= 2 ==> final(self).entries.len() >= old(self).used
                + additional,
            old(self).used + additional > old(self).entries.len() && old(self).used + additional
                >= 2 ==> final(self).entries.len() == pow2(final(self).bits_per_entry as nat)
                && pow2((final(self).bits_per_entry - 1) as nat) < old(self).used + additional,
            final(self).used == if old(self).entries.len() == 0 && old(self).used + additional >= 2
                && old(self).size > 0 {
                1usize
            } else {
                old(self).used
            },
            old(self).entries.len() == 0 && old(self).used + additional >= 2 ==> ({
                &&& (forall|j: int|
                    0 <= j < final(self).entries.len() ==> #[trigger] final(self).entries[j] == (
                    if j == 0 {
                        PaletteEntry { value: T::default_spec(), ref_count: old(self).size }
                    } else {
                        PaletteEntry { value: T::default_spec(), ref_count: 0usize }
                    }))
                &&& final(self).slot_seq() == Seq::new(old(self).size as nat, |i: int| 0usize)
            }),
    {
        proof {
            lemma_live_le_len(self.entries@);
        }
        let req = self.used + additional;
        if req > self.entries.len() {
            let nb = bits_for(req);
            proof {
                lemma2_to64();
                if self.entries.len() > 0 {
                    // the new width is strictly wider than the old one
                    if nb < self.bits_per_entry {
                        lemma_pow2_le(nb as nat, (self.bits_per_entry - 1) as nat);
                        assert(false);
                    }
                    if nb == self.bits_per_entry {
                        assert(false);
                    }
                }
            }
            self.set_bits_per_entry(nb);
        }
    }

    /// Creates a new palette store with the specified number of virtual
    /// elements and room for `capacity` palette entries.
    pub fn with_capacity(size: usize, capacity: usize) -> (r: PaletteStore<T>)
        requires
            size <= 0x4000_0000,
            size * 32 <= usize::MAX,
            capacity <= 0x8000_0000,
        ensures
            r.wf(),
            r.size == size,
            r.contents() =~= Seq::new(size as nat, |i: int| T::default_spec()),
            capacity >= 2 ==> r.entries.len() >= capacity,
    {
        let mut storage = Self::new(size);
        storage.reserve(capacity);
        storage
    }

    /// Reads the virtual element at `index`, which the caller asserts to be in
    /// bounds.
    pub fn get_unchecked(&self, index: usize) -> (r: T)
        requires
            self.wf(),
            index < self.size,
        ensures
            r == self.contents()[index as int],
    {
        if self.used == 0 {
            proof {
                if self.entries.len() > 0 {
                    lemma_no_live_no_refs(self.entries@);
                }
            }
            T::default_value()
        } else {
            let pi = bits_read_slot(&self.bits, index, self.bits_per_entry);
            self.entries[pi].value
        }
    }

    /// Reads the virtual element at `index`; out-of-bounds indices are
    /// rejected with an error.
    pub fn get(&self, index: usize) -> (r: Result<T, &'static str>)
        requires
            self.wf(),
        ensures
            match r {
                Ok(v) => index < self.size && v == self.contents()[index as int],
                Err(_) => index >= self.size,
            },
    {
        if index >= self.size {
            Err("Out of bounds")
        } else {
            Ok(self.get_unchecked(index))
        }
    }
    /// Finds the first palette entry holding `value`.
    fn find_value(&self, value: T) -> (r: Option<usize>)
        ensures
            match r {
                Some(j) => j < self.entries.len() && self.entries[j as int].value == value
                    && forall|k: int| 0 <= k < j ==> (#[trigger] self.entries[k]).value != value,
                None => forall|k: int|
                    0 <= k < self.entries.len() ==> (#[trigger] self.entries[k]).value != value,
            },
    {
        let mut k: usize = 0;
        while k < self.entries.len()
            invariant
                k <= self.entries.len(),
                forall|m: int| 0 <= m < k ==> (#[trigger] self.entries[m]).value != value,
            decreases self.entries.len() - k,
        {
            if self.entries[k].value.eq_value(&value) {
                return Some(k);
            }
            k = k + 1;
        }
        None
    }

    /// Finds the first free palette entry, skipping the reserved entry 0.
    fn find_free(&self) -> (r: Option<usize>)
        ensures
            match r {
                Some(j) => 1 <= j < self.entries.len() && self.entries[j as int].ref_count == 0
                    && forall|k: int|
                    1 <= k < j ==> (#[trigger] self.entries[k]).ref_count > 0,
                None => forall|k: int|
                    1 <= k < self.entries.len() ==> (#[trigger] self.entries[k]).ref_count > 0,
            },
    {
        let mut k: usize = 1;
        while k < self.entries.len()
            invariant
                1 <= k,
                forall|m: int| 1 <= m < k ==> (#[trigger] self.entries[m]).ref_count > 0,
            decreases self.entries.len() - k,
        {
            if self.entries[k].ref_count == 0 {
                return Some(k);
            }
            k = k + 1;
        }
        None
    }

    /// Where a write of a fresh value (one differing from the element's
    /// current value) placed it, following the palette's placement rules: the
    /// first entry already holding the value; failing that, the entry this
    /// very write freed; failing that, the first free entry beyond the
    /// reserved entry 0; and failing that, the first fresh entry of the
    /// doubled palette. Only the element's slot, the two entries involved and
    /// (when growing) the palette's tail change.
    pub open spec fn placed(pre: Self, post: Self, index: int, value: T) -> bool {
        let s0 = pre.slot_seq();
        let es0 = pre.entries@;
        let pi = s0[index] as int;
        let cur = es0[pi];
        let freeing = cur.ref_count == 1;
        let freed_pi = if freeing && pi != 0 {
            PaletteEntry { value: T::default_spec(), ref_count: 0usize }
        } else {
            PaletteEntry { value: cur.value, ref_count: (cur.ref_count - 1) as usize }
        };
        let dst = post.slot_seq()[index] as int;
        &&& post.slot_seq().len() == s0.len()
        &&& (forall|k: int|
            0 <= k < s0.len() && k != index ==> #[trigger] post.slot_seq()[k] == s0[k])
        &&& (if exists|j: int| 0 <= j < es0.len() && (#[trigger] es0[j]).value == value {
            &&& 0 <= dst < es0.len()
            &&& es0[dst].value == value
            &&& (forall|k: int| 0 <= k < dst ==> (#[trigger] es0[k]).value != value)
            &&& post.entries@ == es0.update(pi, freed_pi).update(
                dst,
                PaletteEntry { value, ref_count: (es0[dst].ref_count + 1) as usize },
            )
        } else if freeing && pi != 0 {
            &&& dst == pi
            &&& post.entries@ == es0.update(pi, PaletteEntry { value, ref_count: 1usize })
        } else if exists|j: int| 1 <= j < es0.len() && (#[trigger] es0[j]).ref_count == 0 {
            &&& 1 <= dst < es0.len()
            &&& es0[dst].ref_count == 0
            &&& (forall|k: int| 1 <= k < dst ==> (#[trigger] es0[k]).ref_count > 0)
            &&& post.entries@ == es0.update(pi, freed_pi).update(
                dst,
                PaletteEntry { value, ref_count: 1usize },
            )
        } else {
            &&& dst == es0.len()
            &&& post.bits_per_entry == pre.bits_per_entry + 1
            &&& post.entries@ == es0.add(
                Seq::new(es0.len(), |j: int| PaletteEntry { value: T::default_spec(), ref_count: 0usize }),
            ).update(pi, freed_pi).update(dst, PaletteEntry { value, ref_count: 1usize })
        })
    }

    /// Writes `value` to the virtual element at `index`, which the caller
    /// asserts to be in bounds. Allocates the palette on the first non-default
    /// write and grows it when a new distinct value does not fit.
    #[verifier::rlimit(100)]
    #[verifier::spinoff_prover]
    pub fn set_unchecked(&mut self, index: usize, value: T)
        requires
            old(self).wf(),
            index < old(self).size,
        ensures
            final(self).wf(),
            final(self).contents() == old(self).contents().update(index as int, value),
            final(self).size == old(self).size,
            old(self).bits_per_entry <= final(self).bits_per_entry,
            old(self).entries.len() <= final(self).entries.len(),
            value == old(self).contents()[index as int] ==> *final(self) == *old(self),
            old(self).entries.len() > 0 && value != old(self).contents()[index as int]
                ==> Self::placed(*old(self), *final(self), index as int, value),
            old(self).entries.len() == 0 && value != T::default_spec() ==> ({
                &&& final(self).entries.len() == 32
                &&& final(self).bits_per_entry == 5
                &&& final(self).entries[0] == (PaletteEntry {
                    value: T::default_spec(),
                    ref_count: (old(self).size - 1) as usize,
                })
                &&& final(self).entries[1] == (PaletteEntry { value, ref_count: 1usize })
                &&& (forall|j: int|
                    2 <= j < 32 ==> #[trigger] final(self).entries[j] == (PaletteEntry {
                        value: T::default_spec(),
                        ref_count: 0usize,
                    }))
                &&& final(self).slot_seq() == Seq::new(old(self).size as nat, |i: int| 0usize).update(
                    index as int,
                    1usize,
                )
            }),
    {
        let ghost first_write = old(self).entries.len() == 0 && value != T::default_spec();
        if self.used == 0 {
            if value.eq_value(&T::default_value()) {
                proof {
                    if self.entries.len() > 0 {
                        lemma_no_live_no_refs(self.entries@);
                    }
                    assert(self.contents() =~= old(self).contents().update(index as int, value));
                }
                return ;
            }
            proof {
                if self.entries.len() > 0 {
                    lemma_no_live_no_refs(self.entries@);
                }
            }
            self.reserve(DEFAULT_CAPACITY);
            proof {
                lemma2_to64();
                if self.entries.len() != 32 {
                    // the palette is a power of two of at least DEFAULT_CAPACITY
                    // entries whose half is below it, so exactly DEFAULT_CAPACITY
                    if self.bits_per_entry >= 6 {
                        lemma_pow2_le(5, (self.bits_per_entry - 1) as nat);
                        assert(false);
                    }
                    if self.bits_per_entry <= 4 {
                        lemma_pow2_le(self.bits_per_entry as nat, 4);
                        assert(false);
                    }
                    assert(false);
                }
            }
        }
        let ghost mid = *self;
        // From here on the palette is allocated and some entry is live.
        proof {
            assert(mid.wf());
            assert(mid.contents() == old(self).contents());
            if mid.entries.len() == 0 {
                lemma_no_live_no_refs(mid.entries@);
            }
        }
        let ghost s0 = self.slot_seq();
        let ghost es0 = self.entries@;
        let pi = bits_read_slot(&self.bits, index, self.bits_per_entry);
        let cur = self.entries[pi];
        proof {
            lemma_count_eq_none(s0, pi as int);
            assert(cur.ref_count == count_eq(s0, pi as int));
            assert(cur.ref_count >= 1);
        }
        if cur.value.eq_value(&value) {
            proof {
                assert(mid.contents()[index as int] == value);
                assert(mid.contents() =~= old(self).contents().update(index as int, value));
            }
            return ;
        }
        // Find where the new value will live: an entry that already holds it,
        // the entry freed by this very write, or a fresh entry, growing the
        // palette when none is free.
        let dst: usize;
        match self.find_value(value) {
            Some(j) => {
                dst = j;
            },
            None => {
                // `value` is not in the palette, and differs from the default
                // (entry 0 always holds the default).
                if pi > 0 && cur.ref_count == 1 {
                    // This write frees the current entry: repurpose it in place.
                    self.entries.set(pi, PaletteEntry { value, ref_count: 1 });
                    proof {
                        lemma_entry_seq_update(es0, pi as int, self.entries[pi as int]);
                        lemma_count_eq_unique(s0, index as int, pi as int);
                        assert(self.contents() =~= old(self).contents().update(
                            index as int,
                            value,
                        ));
                        if first_write {
                            assert(s0 == Seq::new(old(self).size as nat, |i: int| 0usize));
                            assert(s0[index as int] == 0);
                            assert(false);
                        }
                        assert(value != old(self).contents()[index as int]);
                        assert(mid == *old(self));
                        assert(self.slot_seq() == s0);
                        assert(self.entries@ =~= es0.update(pi as int, PaletteEntry {
                            value,
                            ref_count: 1usize,
                        }));
                        assert(Self::placed(*old(self), *self, index as int, value));
                    }
                    return ;
                }
                match self.find_free() {
                    Some(j) => {
                        dst = j;
                    },
                    None => {
                        // All entries beyond 0 are live: double the palette.
                        let prev = self.entries.len();
                        proof {
                            lemma_live_lower(self.entries@);
                            lemma_live_le_sum(self.entries@);
                            if self.bits_per_entry > 30 {
                                lemma_pow2_le(31, self.bits_per_entry as nat);
                                lemma2_to64();
                                assert(false);
                            }
                            lemma2_to64();
                            lemma_pow2_le(self.bits_per_entry as nat + 1, 31);
                        }
                        let nb = self.bits_per_entry + 1;
                        self.set_bits_per_entry(nb);
                        dst = prev;
                    },
                }
            },
        }
        // Move the reference at `index` from entry `pi` to entry `dst`.
        let ghost s1 = self.slot_seq();
        let ghost es1 = self.entries@;
        proof {
            assert(s1 == s0);
            assert(es1.len() >= es0.len());
            assert(forall|j: int| 0 <= j < es0.len() ==> (#[trigger] es1[j]) == es0[j]);
            assert(dst != pi);
        }
        let cur_rc = self.entries[pi].ref_count;
        let freed = cur_rc == 1;
        let pv = if freed && pi > 0 {
            T::default_value()
        } else {
            cur.value
        };
        self.entries.set(pi, PaletteEntry { value: pv, ref_count: cur_rc - 1 });
        proof {
            lemma_entry_seq_update(es1, pi as int, self.entries[pi as int]);
            if freed {
                lemma_live_member(es1, pi as int);
            }
        }
        if freed {
            self.used = self.used - 1;
        }
        let ghost es2 = self.entries@;
        let rc_dst = self.entries[dst].ref_count;
        proof {
            lemma_count_eq_le_len(s1, dst as int);
        }
        self.entries.set(dst, PaletteEntry { value, ref_count: rc_dst + 1 });
        proof {
            lemma_entry_seq_update(es2, dst as int, self.entries[dst as int]);
            if rc_dst == 0 {
                lemma_live_le_sum(es2);
            }
        }
        if rc_dst == 0 {
            self.used = self.used + 1;
        }
        bits_write_slot(&mut self.bits, index, self.bits_per_entry, dst);
        proof {
            let s2 = self.slot_seq();
            assert(s2 == s1.update(index as int, dst));
            let es3 = self.entries@;
            assert forall|j: int| 0 <= j < es3.len() implies (#[trigger] es3[j].ref_count)
                == count_eq(s2, j) by {
                lemma_count_eq_update(s1, index as int, dst, j);
            }
            if freed {
                lemma_count_eq_unique(s1, index as int, pi as int);
            }
            assert forall|m: int| 0 <= m < self.size && m != index implies self.contents()[m]
                == old(self).contents()[m] by {
                let p = s1[m] as int;
                assert(s2[m] == s1[m]);
                if p == pi as int {
                    assert(!freed);
                } else if p == dst as int {
                    lemma_count_eq_none(s1, dst as int);
                    assert(es1[dst as int].ref_count > 0);
                    assert(es1[dst as int].value == value);
                }
            }
            assert(self.contents()[index as int] == value);
            assert(self.contents() =~= old(self).contents().update(index as int, value));
            // a write of the value already present returned early, so here it
            // differs
            assert(value != old(self).contents()[index as int]) by {
                assert(old(self).contents()[index as int] == mid.contents()[index as int]);
                assert(mid.contents()[index as int] == cur.value);
            }
            // the write placed the value following the palette rules
            if old(self).entries.len() > 0 {
                assert(mid == *old(self));
                let fpi = if freed && pi > 0 {
                    PaletteEntry { value: T::default_spec(), ref_count: 0usize }
                } else {
                    PaletteEntry { value: cur.value, ref_count: (cur.ref_count - 1) as usize }
                };
                assert(cur_rc == cur.ref_count);
                assert(es3 =~= es1.update(pi as int, fpi).update(dst as int, PaletteEntry {
                    value,
                    ref_count: (rc_dst + 1) as usize,
                }));
                assert(s2[index as int] == dst);
                if exists|j: int| 0 <= j < es0.len() && (#[trigger] es0[j]).value == value {
                    assert(es1 == es0);
                    assert(es0[dst as int].value == value);
                    assert(rc_dst == es0[dst as int].ref_count);
                } else if freed && pi > 0 {
                    // the write would have repurposed the freed entry in place
                    // and returned above
                    assert(false);
                } else if exists|j: int| 1 <= j < es0.len() && (#[trigger] es0[j]).ref_count
                    == 0 {
                    assert(es1 == es0);
                    assert(rc_dst == 0);
                } else {
                    // the palette grew
                    assert(dst == es0.len());
                    lemma_pow2_adds(mid.bits_per_entry as nat, 1);
                    assert(es1.len() == 2 * es0.len());
                    assert(es1 =~= es0.add(
                        Seq::new(
                            es0.len(),
                            |j: int| PaletteEntry { value: T::default_spec(), ref_count: 0usize },
                        ),
                    ));
                }
                assert(Self::placed(*old(self), *self, index as int, value));
            }
            // a first non-default write lands in entry 1 of a fresh palette
            if first_write {
                assert(s0 == Seq::new(old(self).size as nat, |i: int| 0usize));
                assert(pi == 0);
                assert(forall|j: int|
                    0 <= j < es0.len() ==> #[trigger] es0[j] == (if j == 0 {
                        PaletteEntry { value: T::default_spec(), ref_count: old(self).size }
                    } else {
                        PaletteEntry { value: T::default_spec(), ref_count: 0usize }
                    }));
                assert(dst == 1) by {
                    if dst != 1 {
                        assert(es1[1] == es0[1]);
                        assert(es0[1].ref_count == 0);
                    }
                }
                assert(es3[0] == (PaletteEntry {
                    value: T::default_spec(),
                    ref_count: (old(self).size - 1) as usize,
                })) by {
                    assert(cur == es0[0]);
                    assert(cur_rc == old(self).size);
                    assert(pv == cur.value);
                }
                assert(es3[1] == (PaletteEntry { value, ref_count: 1usize })) by {
                    assert(rc_dst == es2[1].ref_count);
                    assert(es2[1] == es1[1]);
                    assert(es1[1] == es0[1]);
                }
                assert(forall|j: int|
                    2 <= j < 32 ==> #[trigger] es3[j] == (PaletteEntry {
                        value: T::default_spec(),
                        ref_count: 0usize,
                    }));
                assert(s2 == Seq::new(old(self).size as nat, |i: int| 0usize).update(
                    index as int,
                    1usize,
                ));
            }
        }
    }

    /// Writes `value` to the virtual element at `index`; out-of-bounds indices
    /// are rejected with an error and leave the store unchanged. The palette
    /// index width never shrinks during a write.
    pub fn set(&mut self, index: usize, value: T) -> (r: Result<(), &'static str>)
        requires
            old(self).wf(),
        ensures
            final(self).wf(),
            final(self).size == old(self).size,
            match r {
                Ok(()) => ({
                    &&& index < old(self).size
                    &&& final(self).contents() == old(self).contents().update(index as int, value)
                    &&& old(self).bits_per_entry <= final(self).bits_per_entry
                    &&& (value == old(self).contents()[index as int] ==> *final(self) == *old(
                        self,
                    ))
                    &&& (old(self).entries.len() > 0 && value != old(self).contents()[index as int]
                        ==> Self::placed(*old(self), *final(self), index as int, value))
                    &&& (old(self).entries.len() == 0 && value != T::default_spec() ==> ({
                        &&& final(self).entries.len() == 32
                        &&& final(self).bits_per_entry == 5
                        &&& final(self).entries[0] == (PaletteEntry {
                            value: T::default_spec(),
                            ref_count: (old(self).size - 1) as usize,
                        })
                        &&& final(self).entries[1] == (PaletteEntry {
                            value,
                            ref_count: 1usize,
                        })
                        &&& (forall|j: int|
                            2 <= j < 32 ==> #[trigger] final(self).entries[j] == (PaletteEntry {
                                value: T::default_spec(),
                                ref_count: 0usize,
                            }))
                        &&& final(self).slot_seq() == Seq::new(
                            old(self).size as nat,
                            |i: int| 0usize,
                        ).update(index as int, 1usize)
                    }))
                }),
                Err(_) => index >= old(self).size && *final(self) == *old(self),
            },
    {
        if index >= self.size {
            Err("Out of bounds")
        } else {
            self.set_unchecked(index, value);
            Ok(())
        }
    }
}

} // verus!
