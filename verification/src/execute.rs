//! An interpreter for the constrained stack machine, proved to do what the
//! machine's definition says.

use crate::extract::lemma_u32_below_pow2;
use crate::extract::power_of_two;
use crate::extract::trim_m31;
use crate::extract::unpack_values;
use crate::fields::le_bytes;
use crate::fields::pack_limbs;
use crate::fields::push_le_bytes;
use crate::hash::hash;
use crate::machine::accepts;
use crate::machine::all_bytes;
use crate::machine::all_nums;
use crate::machine::byte_values;
use crate::machine::has_nonzero;
use crate::machine::initial;
use crate::machine::merkle_step;
use crate::machine::num_values;
use crate::machine::nums;
use crate::machine::run;
use crate::machine::step;
use crate::machine::truthy;
use crate::machine::twiddle_step;
use crate::machine::unpack_step;
use crate::machine::Item;
use crate::machine::ItemV;
use crate::machine::State;
use crate::merkle::bit_of;
use crate::merkle::bits_of;
use crate::merkle::fold_path;
use crate::merkle::rows;
use crate::script::copy_bytes;
use crate::script::Instr;
use crate::script::InstrV;
use crate::script::Script;
use vstd::arithmetic::power2::pow2;
use vstd::prelude::*;

verus! {

/// The items of a stack as mathematical values.
pub open spec fn items(v: Seq<Item>) -> Seq<ItemV> {
    v.map_values(|i: Item| i@)
}

/// The machine at run time.
#[derive(Debug)]
pub struct Machine {
    pub stack: Vec<Item>,
    pub alt: Vec<Item>,
}

impl View for Machine {
    type V = State;

    open spec fn view(&self) -> State {
        State { stack: items(self.stack@), alt: items(self.alt@) }
    }
}

/// Whether two byte strings are the same.
pub fn bytes_eq(a: &[u8], b: &[u8]) -> (r: bool)
    ensures
        r == (a@ == b@),
{
    if a.len() != b.len() {
        return false;
    }
    let mut i: usize = 0;
    while i < a.len()
        invariant
            i <= a.len() == b.len(),
            forall|j: int| 0 <= j < i ==> a@[j] == b@[j],
        decreases a.len() - i,
    {
        if a[i] != b[i] {
            return false;
        }
        i = i + 1;
    }
    assert(a@ =~= b@);
    true
}

impl Item {
    /// A copy of this item.
    pub fn copy(&self) -> (r: Item)
        ensures
            r@ == self@,
    {
        match self {
            Item::Bytes(b) => Item::Bytes(copy_bytes(b.as_slice())),
            Item::Num(n) => Item::Num(*n),
        }
    }

    /// Whether two items are the same.
    pub fn same(&self, other: &Item) -> (r: bool)
        ensures
            r == (self@ == other@),
    {
        match (self, other) {
            (Item::Bytes(a), Item::Bytes(b)) => bytes_eq(a.as_slice(), b.as_slice()),
            (Item::Num(a), Item::Num(b)) => *a == *b,
            _ => false,
        }
    }

    /// Whether the item counts as true.
    pub fn is_true(&self) -> (r: bool)
        ensures
            r == truthy(self@),
    {
        match self {
            Item::Num(v) => *v != 0,
            Item::Bytes(b) => any_nonzero(b.as_slice()),
        }
    }
}

/// Whether `b` holds a byte other than zero.
fn any_nonzero(b: &[u8]) -> (r: bool)
    ensures
        r == has_nonzero(b@),
{
    let mut i: usize = 0;
    while i < b.len()
        invariant
            i <= b.len(),
            forall|j: int| 0 <= j < i ==> b@[j] == 0,
        decreases b.len() - i,
    {
        if b[i] != 0 {
            assert(b@[i as int] != 0);
            return true;
        }
        i = i + 1;
    }
    false
}

/// Puts `item` on top of `v`.
fn put(v: &mut Vec<Item>, item: Item)
    ensures
        items(final(v)@) == items(old(v)@).push(item@),
{
    v.push(item);
    assert(items(v@) =~= items(old(v)@).push(item@));
}

/// Takes the top item off `v`.
fn take_top(v: &mut Vec<Item>) -> (r: Item)
    requires
        old(v).len() >= 1,
    ensures
        r@ == items(old(v)@)[old(v).len() - 1],
        items(final(v)@) == items(old(v)@).take(old(v).len() - 1),
        final(v).len() == old(v).len() - 1,
{
    let r = v.pop().unwrap();
    assert(items(v@) =~= items(old(v)@).take(old(v).len() - 1));
    r
}

/// Takes the item at index `at` out of `v`.
fn take_at(v: &mut Vec<Item>, at: usize) -> (r: Item)
    requires
        at < old(v).len(),
    ensures
        r@ == items(old(v)@)[at as int],
        items(final(v)@) == items(old(v)@).remove(at as int),
        final(v).len() == old(v).len() - 1,
{
    let r = v.remove(at);
    assert(items(v@) =~= items(old(v)@).remove(at as int));
    r
}

/// Cuts `v` down to its `n` lowest items.
fn keep(v: &mut Vec<Item>, n: usize)
    requires
        n <= old(v).len(),
    ensures
        items(final(v)@) == items(old(v)@).take(n as int),
        final(v).len() == n,
{
    v.truncate(n);
    assert(items(v@) =~= items(old(v)@).take(n as int));
}

/// The numbers that the items `from .. to` of `v` hold, if all are numbers.
fn collect_nums(v: &Vec<Item>, from: usize, to: usize) -> (r: Option<Vec<u32>>)
    requires
        from <= to <= v.len(),
    ensures
        match r {
            Some(x) => all_nums(items(v@).subrange(from as int, to as int)) && x@ == num_values(
                items(v@).subrange(from as int, to as int),
            ),
            None => !all_nums(items(v@).subrange(from as int, to as int)),
        },
{
    let ghost part = items(v@).subrange(from as int, to as int);
    let mut out: Vec<u32> = Vec::new();
    let mut i: usize = from;
    while i < to
        invariant
            from <= i <= to <= v.len(),
            part == items(v@).subrange(from as int, to as int),
            out@.len() == i - from,
            forall|j: int|
                #![trigger part[j]]
                0 <= j < i - from ==> part[j] is Num && out@[j] == part[j]->Num_0,
        decreases to - i,
    {
        assert(part[i - from] == v@[i as int]@);
        match &v[i] {
            Item::Num(n) => {
                out.push(*n);
                assert(part[i - from] is Num);
                assert(out@[i - from] == part[i - from]->Num_0);
            },
            Item::Bytes(_) => {
                assert(!(part[i - from] is Num));
                return None;
            },
        }
        i = i + 1;
    }
    assert(out@ =~= num_values(part));
    Some(out)
}

/// The byte strings that the items `from .. to` of `v` hold, if all are
/// byte strings.
fn collect_bytes(v: &Vec<Item>, from: usize, to: usize) -> (r: Option<Vec<Vec<u8>>>)
    requires
        from <= to <= v.len(),
    ensures
        match r {
            Some(x) => all_bytes(items(v@).subrange(from as int, to as int)) && rows(x@)
                == byte_values(items(v@).subrange(from as int, to as int)),
            None => !all_bytes(items(v@).subrange(from as int, to as int)),
        },
{
    let ghost part = items(v@).subrange(from as int, to as int);
    let mut out: Vec<Vec<u8>> = Vec::new();
    let mut i: usize = from;
    while i < to
        invariant
            from <= i <= to <= v.len(),
            part == items(v@).subrange(from as int, to as int),
            out@.len() == i - from,
            forall|j: int|
                #![trigger part[j]]
                0 <= j < i - from ==> part[j] is Bytes && out@[j]@ == part[j]->Bytes_0,
        decreases to - i,
    {
        assert(part[i - from] == v@[i as int]@);
        match &v[i] {
            Item::Bytes(b) => {
                out.push(copy_bytes(b.as_slice()));
            },
            Item::Num(_) => {
                assert(!(part[i - from] is Bytes));
                return None;
            },
        }
        i = i + 1;
    }
    assert(rows(out@) =~= byte_values(part));
    Some(out)
}

/// Copies of the items `from .. to` of `v`.
fn copy_range(v: &Vec<Item>, from: usize, to: usize) -> (r: Vec<Item>)
    requires
        from <= to <= v.len(),
    ensures
        items(r@) == items(v@).subrange(from as int, to as int),
{
    let mut out: Vec<Item> = Vec::new();
    let mut i: usize = from;
    while i < to
        invariant
            from <= i <= to <= v.len(),
            out@.len() == i - from,
            forall|j: int| 0 <= j < i - from ==> out@[j]@ == v@[from + j]@,
        decreases to - i,
    {
        out.push(v[i].copy());
        i = i + 1;
    }
    assert(items(out@) =~= items(v@).subrange(from as int, to as int));
    out
}

/// Puts the numbers `vals` on top of `v`, the first one lowest.
fn put_nums(v: &mut Vec<Item>, vals: &Vec<u32>)
    ensures
        items(final(v)@) == items(old(v)@) + nums(vals@),
{
    let mut i: usize = 0;
    assert(items(v@) =~= items(old(v)@) + nums(vals@).take(0));
    while i < vals.len()
        invariant
            i <= vals.len(),
            items(v@) == items(old(v)@) + nums(vals@).take(i as int),
        decreases vals.len() - i,
    {
        put(v, Item::Num(vals[i]));
        assert(nums(vals@).take(i + 1) =~= nums(vals@).take(i as int).push(ItemV::Num(vals@[i as int])));
        assert(items(v@) =~= items(old(v)@) + nums(vals@).take(i + 1));
        i = i + 1;
    }
    assert(nums(vals@).take(vals.len() as int) =~= nums(vals@));
}

/// The outcome `ok` and the state `after` are what the machine's definition
/// gives: the expected state, or an abort.
pub open spec fn agrees(ok: bool, after: State, expected: Option<State>) -> bool {
    match expected {
        Some(s) => ok && after == s,
        None => !ok,
    }
}

impl Machine {
    /// The machine before a run: both stacks empty.
    pub fn new() -> (r: Machine)
        ensures
            r@ == initial(),
    {
        let r = Machine { stack: Vec::new(), alt: Vec::new() };
        assert(r@.stack =~= initial().stack);
        assert(r@.alt =~= initial().alt);
        r
    }

    fn op_push(&mut self, item: Item) -> (ok: bool)
        ensures
            ok,
            final(self)@ == (State { stack: old(self)@.stack.push(item@), alt: old(self)@.alt }),
    {
        put(&mut self.stack, item);
        true
    }

    fn op_dup(&mut self) -> (ok: bool)
        ensures
            agrees(ok, final(self)@, step(InstrV::Dup, old(self)@)),
    {
        proof {
            reveal(step);
        }
        let n = self.stack.len();
        if n < 1 {
            return false;
        }
        let top = self.stack[n - 1].copy();
        assert(top@ == old(self)@.stack[n - 1]);
        put(&mut self.stack, top);
        true
    }

    fn op_swap(&mut self) -> (ok: bool)
        ensures
            agrees(ok, final(self)@, step(InstrV::Swap, old(self)@)),
    {
        proof {
            reveal(step);
        }
        let n = self.stack.len();
        if n < 2 {
            return false;
        }
        let b = take_top(&mut self.stack);
        let a = take_top(&mut self.stack);
        put(&mut self.stack, b);
        put(&mut self.stack, a);
        let ghost s = old(self)@.stack;
        assert(self@.stack =~= s.take(n - 2).push(s[n - 1]).push(s[n - 2]));
        true
    }

    fn op_drop(&mut self, count: usize) -> (ok: bool)
        requires
            count == 1 || count == 2,
        ensures
            agrees(
                ok,
                final(self)@,
                step(
                    if count == 1 {
                        InstrV::Drop
                    } else {
                        InstrV::Drop2
                    },
                    old(self)@,
                ),
            ),
    {
        proof {
            reveal(step);
        }
        let n = self.stack.len();
        if n < count {
            return false;
        }
        keep(&mut self.stack, n - count);
        true
    }

    fn op_roll(&mut self) -> (ok: bool)
        ensures
            agrees(ok, final(self)@, step(InstrV::Roll, old(self)@)),
    {
        proof {
            reveal(step);
        }
        let n = self.stack.len();
        if n < 1 {
            return false;
        }
        let ghost s = old(self)@.stack;
        assert(s[n - 1] == self.stack@[n - 1]@);
        let depth: usize = match &self.stack[n - 1] {
            Item::Num(k) => *k as usize,
            Item::Bytes(_) => {
                return false;
            },
        };
        if depth >= n - 1 {
            return false;
        }
        let _ = take_top(&mut self.stack);
        let at: usize = n - 2 - depth;
        let item = take_at(&mut self.stack, at);
        put(&mut self.stack, item);
        assert(self@.stack =~= s.take(n - 1).remove(at as int).push(s[at as int]));
        true
    }

    fn op_cat(&mut self) -> (ok: bool)
        ensures
            agrees(ok, final(self)@, step(InstrV::Cat, old(self)@)),
    {
        proof {
            reveal(step);
        }
        let n = self.stack.len();
        if n < 2 {
            return false;
        }
        let ghost s = old(self)@.stack;
        let b = take_top(&mut self.stack);
        let a = take_top(&mut self.stack);
        match (a, b) {
            (Item::Bytes(a), Item::Bytes(b)) => {
                let mut c = a;
                c.extend_from_slice(b.as_slice());
                assert(c@ =~= s[n - 2]->Bytes_0 + s[n - 1]->Bytes_0);
                put(&mut self.stack, Item::Bytes(c));
                assert(self@.stack =~= s.take(n - 2).push(
                    ItemV::Bytes(s[n - 2]->Bytes_0 + s[n - 1]->Bytes_0),
                ));
                true
            },
            _ => false,
        }
    }

    fn op_sha256(&mut self) -> (ok: bool)
        ensures
            agrees(ok, final(self)@, step(InstrV::Sha256, old(self)@)),
    {
        proof {
            reveal(step);
        }
        let n = self.stack.len();
        if n < 1 {
            return false;
        }
        let a = take_top(&mut self.stack);
        match a {
            Item::Bytes(a) => {
                let d = hash(a.as_slice());
                put(&mut self.stack, Item::Bytes(copy_bytes(d.as_slice())));
                true
            },
            Item::Num(_) => false,
        }
    }

    fn op_to_alt(&mut self) -> (ok: bool)
        ensures
            agrees(ok, final(self)@, step(InstrV::ToAltStack, old(self)@)),
    {
        proof {
            reveal(step);
        }
        if self.stack.len() < 1 {
            return false;
        }
        let a = take_top(&mut self.stack);
        put(&mut self.alt, a);
        true
    }

    fn op_from_alt(&mut self) -> (ok: bool)
        ensures
            agrees(ok, final(self)@, step(InstrV::FromAltStack, old(self)@)),
    {
        proof {
            reveal(step);
        }
        if self.alt.len() < 1 {
            return false;
        }
        let a = take_top(&mut self.alt);
        put(&mut self.stack, a);
        true
    }

    fn op_equal(&mut self) -> (ok: bool)
        ensures
            agrees(ok, final(self)@, step(InstrV::Equal, old(self)@)),
    {
        proof {
            reveal(step);
        }
        let n = self.stack.len();
        if n < 2 {
            return false;
        }
        let b = take_top(&mut self.stack);
        let a = take_top(&mut self.stack);
        let r: u32 = if a.same(&b) {
            1
        } else {
            0
        };
        put(&mut self.stack, Item::Num(r));
        let ghost s = old(self)@.stack;
        assert(self@.stack =~= s.take(n - 2).push(ItemV::Num(r)));
        true
    }

    fn op_equal_verify(&mut self) -> (ok: bool)
        ensures
            agrees(ok, final(self)@, step(InstrV::EqualVerify, old(self)@)),
    {
        proof {
            reveal(step);
        }
        let n = self.stack.len();
        if n < 2 {
            return false;
        }
        let b = take_top(&mut self.stack);
        let a = take_top(&mut self.stack);
        let ghost s = old(self)@.stack;
        assert(self@.stack =~= s.take(n - 2));
        a.same(&b)
    }

    fn op_trim(&mut self, logn: usize) -> (ok: bool)
        ensures
            agrees(ok, final(self)@, step(InstrV::TrimM31(logn), old(self)@)),
    {
        proof {
            reveal(step);
        }
        let n = self.stack.len();
        if n < 1 {
            return false;
        }
        let a = take_top(&mut self.stack);
        match a {
            Item::Num(v) => {
                put(&mut self.stack, Item::Num(trim_m31(v, logn)));
                true
            },
            Item::Bytes(_) => false,
        }
    }
}

impl Machine {
    fn op_commit(&mut self) -> (ok: bool)
        ensures
            agrees(ok, final(self)@, step(InstrV::CommitQm31, old(self)@)),
    {
        proof {
            reveal(step);
        }
        let n = self.stack.len();
        if n < 4 {
            return false;
        }
        let ghost s = old(self)@.stack;
        match collect_nums(&self.stack, n - 4, n) {
            Some(limbs) => {
                let mut out: Vec<u8> = Vec::new();
                push_le_bytes(&mut out, limbs[0]);
                push_le_bytes(&mut out, limbs[1]);
                push_le_bytes(&mut out, limbs[2]);
                push_le_bytes(&mut out, limbs[3]);
                assert(out@ =~= pack_limbs(limbs@));
                keep(&mut self.stack, n - 4);
                put(&mut self.stack, Item::Bytes(out));
                true
            },
            None => false,
        }
    }

    fn op_unpack(&mut self, k: usize) -> (ok: bool)
        requires
            k == 4 || k == 5,
        ensures
            agrees(ok, final(self)@, unpack_step(old(self)@, k as nat)),
    {
        proof {
            reveal(step);
        }
        let n = self.stack.len();
        if n < 2 {
            return false;
        }
        let ghost s = old(self)@.stack;
        assert(s[0] == self.stack@[0]@);
        assert(s[n - 1] == self.stack@[n - 1]@);
        let vals = match (&self.stack[0], &self.stack[n - 1]) {
            (Item::Bytes(hint), Item::Bytes(d)) => {
                if d.len() != 32 {
                    return false;
                }
                match unpack_values(d.as_slice(), hint.as_slice(), k) {
                    Some(vals) => vals,
                    None => {
                        return false;
                    },
                }
            },
            _ => {
                return false;
            },
        };
        let _ = take_top(&mut self.stack);
        let _ = take_at(&mut self.stack, 0);
        assert(items(self.stack@) =~= s.subrange(1, n - 1));
        put_nums(&mut self.stack, &vals);
        true
    }

    fn op_to_alt4(&mut self) -> (ok: bool)
        ensures
            agrees(ok, final(self)@, step(InstrV::Qm31ToAltStack, old(self)@)),
    {
        proof {
            reveal(step);
        }
        let n = self.stack.len();
        if n < 4 {
            return false;
        }
        let ghost s = old(self)@;
        let a = take_top(&mut self.stack);
        put(&mut self.alt, a);
        let b = take_top(&mut self.stack);
        put(&mut self.alt, b);
        let c = take_top(&mut self.stack);
        put(&mut self.alt, c);
        let d = take_top(&mut self.stack);
        put(&mut self.alt, d);
        assert(self@.stack =~= s.stack.take(n - 4));
        assert(self@.alt =~= s.alt + s.stack.skip(n - 4).reverse());
        true
    }

    fn op_from_alt4(&mut self) -> (ok: bool)
        ensures
            agrees(ok, final(self)@, step(InstrV::Qm31FromAltStack, old(self)@)),
    {
        proof {
            reveal(step);
        }
        let m = self.alt.len();
        if m < 4 {
            return false;
        }
        let ghost s = old(self)@;
        let a = take_top(&mut self.alt);
        put(&mut self.stack, a);
        let b = take_top(&mut self.alt);
        put(&mut self.stack, b);
        let c = take_top(&mut self.alt);
        put(&mut self.stack, c);
        let d = take_top(&mut self.alt);
        put(&mut self.stack, d);
        assert(self@.alt =~= s.alt.take(m - 4));
        assert(self@.stack =~= s.stack + s.alt.skip(m - 4).reverse());
        true
    }

    fn op_equal_verify4(&mut self) -> (ok: bool)
        ensures
            agrees(ok, final(self)@, step(InstrV::Qm31EqualVerify, old(self)@)),
    {
        proof {
            reveal(step);
        }
        let n = self.stack.len();
        if n < 8 {
            return false;
        }
        let ghost s = old(self)@.stack;
        let ghost left = s.subrange(n - 8, n - 4);
        let ghost right = s.skip(n - 4);
        let mut i: usize = 0;
        while i < 4
            invariant
                i <= 4,
                n == self.stack.len(),
                n >= 8,
                *self == *old(self),
                s == items(self.stack@),
                left == s.subrange(n - 8, n - 4),
                right == s.skip(n - 4),
                forall|j: int| 0 <= j < i ==> left[j] == right[j],
            decreases 4 - i,
        {
            assert(left[i as int] == self.stack@[n - 8 + i]@);
            assert(right[i as int] == self.stack@[n - 4 + i]@);
            if !self.stack[n - 8 + i].same(&self.stack[n - 4 + i]) {
                proof {
                    reveal(step);
                }
                assert(left[i as int] != right[i as int]);
                return false;
            }
            i = i + 1;
        }
        assert(left =~= right);
        keep(&mut self.stack, n - 8);
        true
    }

    fn op_bits(&mut self, k: u32) -> (ok: bool)
        ensures
            agrees(ok, final(self)@, step(InstrV::LimbToBeBits(k), old(self)@)),
    {
        proof {
            reveal(step);
        }
        let n = self.stack.len();
        if n < 1 {
            return false;
        }
        let ghost s = old(self)@.stack;
        let a = take_top(&mut self.stack);
        let v: u32 = match a {
            Item::Num(v) => v,
            Item::Bytes(_) => {
                return false;
            },
        };
        if k < 32 {
            if v as u64 >= power_of_two(k as usize) {
                return false;
            }
        } else {
            proof {
                lemma_u32_below_pow2(v, k as nat);
            }
        }
        let ghost bits = nums(bits_of(v, k as nat)).reverse();
        let mut i: u32 = 0;
        assert(items(self.stack@) =~= s.take(n - 1) + bits.take(0));
        while i < k
            invariant
                i <= k,
                bits == nums(bits_of(v, k as nat)).reverse(),
                self.alt == old(self).alt,
                items(self.stack@) == s.take(n - 1) + bits.take(i as int),
            decreases k - i,
        {
            let b = bit_of(v, (k - 1 - i) as usize);
            put(&mut self.stack, Item::Num(b));
            assert(bits[i as int] == ItemV::Num(b));
            assert(bits.take(i + 1) =~= bits.take(i as int).push(bits[i as int]));
            assert(items(self.stack@) =~= s.take(n - 1) + bits.take(i + 1));
            i = i + 1;
        }
        assert(bits.take(k as int) =~= bits);
        true
    }

    fn op_copy_to_alt(&mut self, k: usize) -> (ok: bool)
        ensures
            agrees(ok, final(self)@, step(InstrV::CopyToAltStack(k), old(self)@)),
    {
        proof {
            reveal(step);
        }
        let n = self.stack.len();
        if n < k {
            return false;
        }
        let ghost s = old(self)@;
        let ghost copied = s.stack.skip(n - k).reverse();
        let mut j: usize = 0;
        assert(items(self.alt@) =~= s.alt + copied.take(0));
        while j < k
            invariant
                j <= k <= n,
                n == self.stack.len(),
                self.stack == old(self).stack,
                s == old(self)@,
                copied == s.stack.skip(n - k).reverse(),
                items(self.alt@) == s.alt + copied.take(j as int),
            decreases k - j,
        {
            let item = self.stack[n - 1 - j].copy();
            assert(copied[j as int] == item@);
            put(&mut self.alt, item);
            assert(copied.take(j + 1) =~= copied.take(j as int).push(copied[j as int]));
            assert(items(self.alt@) =~= s.alt + copied.take(j + 1));
            j = j + 1;
        }
        assert(copied.take(k as int) =~= copied);
        true
    }
}

/// Whether `v` is below two to the power `e`.
fn below_power_of_two(v: u32, e: usize) -> (r: bool)
    ensures
        r == (v < pow2(e as nat)),
{
    if e < 32 {
        (v as u64) < power_of_two(e)
    } else {
        proof {
            lemma_u32_below_pow2(v, e as nat);
        }
        true
    }
}

/// The `n` low bits of `v`, the least significant first.
fn low_bits(v: u32, n: usize) -> (r: Vec<u32>)
    ensures
        r@ == bits_of(v, n as nat),
{
    let mut out: Vec<u32> = Vec::new();
    let mut j: usize = 0;
    while j < n
        invariant
            j <= n,
            out@.len() == j,
            forall|i: int| 0 <= i < j ==> out@[i] == crate::merkle::bit(v, i as nat),
        decreases n - j,
    {
        out.push(bit_of(v, j));
        j = j + 1;
    }
    assert(out@ =~= bits_of(v, n as nat));
    out
}

impl Machine {
    fn op_merkle(&mut self, h: usize) -> (ok: bool)
        ensures
            agrees(ok, final(self)@, merkle_step(old(self)@, h as int)),
    {
        proof {
            reveal(step);
        }
        let n = self.stack.len();
        let m = self.alt.len();
        if h > m || n < 5 || h > n - 5 {
            return false;
        }
        let ghost s = old(self)@;
        assert(s.stack.take(4) =~= s.stack.subrange(0, 4));
        assert(s.alt.skip(m - h) =~= s.alt.subrange(m - h, m as int));
        let limbs = match collect_nums(&self.stack, 0, 4) {
            Some(x) => x,
            None => {
                return false;
            },
        };
        let sibs = match collect_bytes(&self.stack, 4, 4 + h) {
            Some(x) => x,
            None => {
                return false;
            },
        };
        let bits = match collect_nums(&self.alt, m - h, m) {
            Some(x) => x,
            None => {
                return false;
            },
        };
        assert(s.stack[n - 1] == self.stack@[n - 1]@);
        let matches = match &self.stack[n - 1] {
            Item::Bytes(root) => {
                let mut packed: Vec<u8> = Vec::new();
                push_le_bytes(&mut packed, limbs[0]);
                push_le_bytes(&mut packed, limbs[1]);
                push_le_bytes(&mut packed, limbs[2]);
                push_le_bytes(&mut packed, limbs[3]);
                assert(packed@ =~= pack_limbs(limbs@));
                let leaf = hash(packed.as_slice());
                let r = fold_path(leaf, &sibs, &bits);
                bytes_eq(r.as_slice(), root.as_slice())
            },
            Item::Num(_) => {
                return false;
            },
        };
        if !matches {
            return false;
        }
        let mut rest = copy_range(&self.stack, 4 + h, n - 1);
        let mut leaf = copy_range(&self.stack, 0, 4);
        let ghost rest0 = rest@;
        let ghost leaf0 = leaf@;
        rest.append(&mut leaf);
        assert(items(rest@) =~= items(rest0) + items(leaf0));
        self.stack = rest;
        keep(&mut self.alt, m - h);
        assert(self@.stack =~= s.stack.subrange(4 + h, n - 1) + s.stack.take(4));
        true
    }

    fn op_twiddle(&mut self, h: usize) -> (ok: bool)
        ensures
            agrees(ok, final(self)@, twiddle_step(old(self)@, h as int)),
    {
        proof {
            reveal(step);
        }
        let n = self.stack.len();
        if n < 4 || h > n - 4 {
            return false;
        }
        let ghost s = old(self)@;
        assert(s.stack.take(2) =~= s.stack.subrange(0, 2));
        let pair = match collect_nums(&self.stack, 0, 2) {
            Some(x) => x,
            None => {
                return false;
            },
        };
        let sibs = match collect_bytes(&self.stack, 2, 2 + h) {
            Some(x) => x,
            None => {
                return false;
            },
        };
        assert(s.stack[n - 1] == self.stack@[n - 1]@);
        assert(s.stack[n - 2] == self.stack@[n - 2]@);
        let matches = match (&self.stack[n - 2], &self.stack[n - 1]) {
            (Item::Bytes(root), Item::Num(pos)) => {
                if !below_power_of_two(*pos, h) {
                    return false;
                }
                let bits = low_bits(*pos, h);
                let mut packed: Vec<u8> = Vec::new();
                push_le_bytes(&mut packed, pair[0]);
                push_le_bytes(&mut packed, pair[1]);
                assert(packed@ =~= le_bytes(pair@[0]) + le_bytes(pair@[1]));
                let leaf = hash(packed.as_slice());
                let r = fold_path(leaf, &sibs, &bits);
                bytes_eq(r.as_slice(), root.as_slice())
            },
            _ => {
                return false;
            },
        };
        if !matches {
            return false;
        }
        let mut rest = copy_range(&self.stack, 2 + h, n - 2);
        let mut leaf = copy_range(&self.stack, 0, 2);
        let ghost rest0 = rest@;
        let ghost leaf0 = leaf@;
        rest.append(&mut leaf);
        assert(items(rest@) =~= items(rest0) + items(leaf0));
        self.stack = rest;
        assert(self@.stack =~= s.stack.subrange(2 + h, n - 2) + s.stack.take(2));
        true
    }

    /// Executes one instruction. Returns whether the run goes on; after an
    /// abort the stacks hold nothing of meaning.
    pub fn apply(&mut self, instr: &Instr) -> (ok: bool)
        ensures
            agrees(ok, final(self)@, step(instr@, old(self)@)),
    {
        proof {
            reveal(step);
        }
        match instr {
            Instr::PushBytes(b) => self.op_push(Item::Bytes(copy_bytes(b.as_slice()))),
            Instr::PushNum(v) => self.op_push(Item::Num(*v)),
            Instr::Dup => self.op_dup(),
            Instr::Swap => self.op_swap(),
            Instr::Drop => self.op_drop(1),
            Instr::Drop2 => self.op_drop(2),
            Instr::Roll => self.op_roll(),
            Instr::Cat => self.op_cat(),
            Instr::Sha256 => self.op_sha256(),
            Instr::ToAltStack => self.op_to_alt(),
            Instr::FromAltStack => self.op_from_alt(),
            Instr::Equal => self.op_equal(),
            Instr::EqualVerify => self.op_equal_verify(),
            Instr::CommitQm31 => self.op_commit(),
            Instr::UnpackQm31 => self.op_unpack(4),
            Instr::Unpack5M31 => self.op_unpack(5),
            Instr::TrimM31(logn) => self.op_trim(*logn),
            Instr::Qm31ToAltStack => self.op_to_alt4(),
            Instr::Qm31FromAltStack => self.op_from_alt4(),
            Instr::Qm31EqualVerify => self.op_equal_verify4(),
            Instr::LimbToBeBits(k) => self.op_bits(*k),
            Instr::CopyToAltStack(k) => self.op_copy_to_alt(*k),
            Instr::MerkleVerify(h) => self.op_merkle(*h),
            Instr::TwiddleVerify(h) => self.op_twiddle(*h),
        }
    }

    /// Runs a program from the machine's present state. Returns whether it
    /// ran to its end.
    pub fn run(&mut self, script: &Script) -> (ok: bool)
        ensures
            agrees(ok, final(self)@, run(script@, old(self)@)),
    {
        let n = script.instrs.len();
        let mut i: usize = 0;
        assert(script@.skip(0) =~= script@);
        while i < n
            invariant
                i <= n == script.instrs.len(),
                run(script@, old(self)@) == run(script@.skip(i as int), self@),
            decreases n - i,
        {
            let ghost rest = script@.skip(i as int);
            assert(rest[0] == script.instrs@[i as int]@);
            assert(rest.drop_first() =~= script@.skip(i + 1));
            if !self.apply(&script.instrs[i]) {
                return false;
            }
            i = i + 1;
        }
        true
    }
}

/// How a run from the initial state ended.
#[derive(Debug)]
pub struct ExecuteInfo {
    /// The program ran to its end and left exactly one item, a true one.
    pub success: bool,
    /// The execution stack at the end; empty after an abort.
    pub final_stack: Vec<Item>,
}

/// Runs `script` from the initial state.
pub fn execute_script(script: &Script) -> (r: ExecuteInfo)
    ensures
        r.success == accepts(script@),
        match run(script@, initial()) {
            Some(s) => items(r.final_stack@) == s.stack,
            None => r.final_stack@.len() == 0,
        },
{
    let mut machine = Machine::new();
    if !machine.run(script) {
        return ExecuteInfo { success: false, final_stack: Vec::new() };
    }
    let success = machine.stack.len() == 1 && machine.stack[0].is_true();
    assert(machine.stack.len() == 1 ==> machine@.stack[0] == machine.stack@[0]@);
    ExecuteInfo { success, final_stack: machine.stack }
}

} // verus!
