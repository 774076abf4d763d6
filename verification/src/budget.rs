//! Byte budgets that bound what the Run queues may hold at once.
//!
//! A budget keeps, beside its counters, the permits it has granted and not
//! yet taken back: the bytes it counts as used are always exactly the bytes
//! of those live permits, and a permit can only be handed back to the budget
//! that granted it, once.

use vstd::prelude::*;

verus! {

/// A byte budget: how many bytes may be reserved at once, and how many are.
pub struct ByteBudget {
    maximum: usize,
    used: usize,
    identity: Ghost<int>,
    next_serial: Ghost<nat>,
    live: Ghost<Seq<(nat, nat)>>,
}

/// A reservation of `bytes` against a budget, handed back by `release`.
pub struct BytePermit {
    bytes: usize,
    budget: Ghost<int>,
    serial: Ghost<nat>,
}

/// The abstract state of a budget: its maximum, the bytes it counts as
/// reserved, and its live permits as (serial, bytes), oldest first.
pub struct BudgetState {
    pub maximum: nat,
    pub used: nat,
    pub live: Seq<(nat, nat)>,
}

impl View for ByteBudget {
    type V = BudgetState;

    closed spec fn view(&self) -> BudgetState {
        BudgetState { maximum: self.maximum as nat, used: self.used as nat, live: self.live@ }
    }
}

/// The bytes of a list of permits, summed.
pub open spec fn live_bytes(live: Seq<(nat, nat)>) -> nat
    decreases live.len(),
{
    if live.len() == 0 {
        0
    } else {
        live_bytes(live.drop_last()) + live.last().1
    }
}

/// A list of permits without the one with serial `serial`.
pub open spec fn without_serial(live: Seq<(nat, nat)>, serial: nat) -> Seq<(nat, nat)>
    decreases live.len(),
{
    if live.len() == 0 {
        Seq::empty()
    } else {
        let rest = without_serial(live.drop_last(), serial);
        if live.last().0 == serial {
            rest
        } else {
            rest.push(live.last())
        }
    }
}

/// No serial occurs twice among the permits.
pub open spec fn distinct_serials(live: Seq<(nat, nat)>) -> bool {
    forall|i: int, j: int| 0 <= i < j < live.len() ==> (#[trigger] live[i]).0 != (#[trigger] live[j]).0
}

/// Whether some live permit has serial `serial`.
pub open spec fn has_serial(live: Seq<(nat, nat)>, serial: nat) -> bool {
    exists|i: int| 0 <= i < live.len() && (#[trigger] live[i]).0 == serial
}

/// The accounting every budget keeps: what it counts as used is the bytes of
/// its live permits, within its maximum, and no permit is live twice.
pub open spec fn balanced(s: BudgetState) -> bool {
    &&& s.used == live_bytes(s.live)
    &&& s.used <= s.maximum
    &&& distinct_serials(s.live)
}

/// Whether a reservation of `bytes` is granted in state `s`.
pub open spec fn grants(s: BudgetState, bytes: nat) -> bool {
    s.used + bytes <= s.maximum
}

/// The state after a reservation of `bytes` is attempted in `s`, the permit
/// (if granted) getting serial `serial`.
pub open spec fn after_reserve(s: BudgetState, bytes: nat, serial: nat) -> BudgetState {
    if grants(s, bytes) {
        BudgetState { maximum: s.maximum, used: s.used + bytes, live: s.live.push((serial, bytes)) }
    } else {
        s
    }
}

/// The state after the live permit of `bytes` with serial `serial` is handed
/// back in `s`.
pub open spec fn after_release(s: BudgetState, serial: nat, bytes: nat) -> BudgetState {
    BudgetState { maximum: s.maximum, used: (s.used - bytes) as nat, live: without_serial(s.live, serial) }
}

impl BytePermit {
    /// The number of bytes this permit holds.
    pub closed spec fn amount(&self) -> nat {
        self.bytes as nat
    }

    /// The identity of the budget that granted this permit.
    pub closed spec fn budget_identity(&self) -> int {
        self.budget@
    }

    /// The serial this permit was granted under.
    pub closed spec fn serial(&self) -> nat {
        self.serial@
    }

    /// The number of bytes this permit holds.
    pub fn bytes(&self) -> (n: usize)
        ensures
            n == self.amount(),
    {
        self.bytes
    }
}

/// An identity for a new budget, of which the caller learns nothing.
proof fn unknown_identity() -> int {
    0
}

impl ByteBudget {
    #[verifier::type_invariant]
    spec fn accounted(&self) -> bool {
        &&& balanced(self@)
        &&& forall|i: int| 0 <= i < self.live@.len() ==> (#[trigger] self.live@[i]).0 < self.next_serial@
    }

    /// The identity of this budget, which its permits carry.
    pub closed spec fn identity(&self) -> int {
        self.identity@
    }

    /// An empty budget of `maximum` bytes.
    pub fn new(maximum: usize) -> (b: Self)
        ensures
            b@ == (BudgetState { maximum: maximum as nat, used: 0, live: Seq::empty() }),
    {
        let ghost identity = unknown_identity();
        ByteBudget {
            maximum,
            used: 0,
            identity: Ghost(identity),
            next_serial: Ghost(0),
            live: Ghost(Seq::empty()),
        }
    }

    /// Reserves `bytes` when they fit beside what is already reserved. A
    /// granted permit is new to this budget and carries its identity.
    pub fn reserve(&mut self, bytes: usize) -> (permit: Option<BytePermit>)
        ensures
            permit is Some <==> grants(old(self)@, bytes as nat),
            final(self).identity() == old(self).identity(),
            balanced(final(self)@),
            match permit {
                Some(p) => {
                    &&& p.amount() == bytes
                    &&& p.budget_identity() == old(self).identity()
                    &&& !has_serial(old(self)@.live, p.serial())
                    &&& final(self)@ == after_reserve(old(self)@, bytes as nat, p.serial())
                },
                None => final(self)@ == old(self)@,
            },
    {
        proof {
            use_type_invariant(&*self);
        }
        if bytes > self.maximum {
            return None;
        }
        if self.used > self.maximum - bytes {
            return None;
        }
        let ghost serial = self.next_serial@;
        let ghost live = self.live@.push((serial, bytes as nat));
        proof {
            assert(live.drop_last() =~= self.live@);
            assert forall|i: int, j: int| 0 <= i < j < live.len() implies (#[trigger] live[i]).0 != (
            #[trigger] live[j]).0 by {
                if j < live.len() - 1 {
                    assert(live[i] == self.live@[i]);
                    assert(live[j] == self.live@[j]);
                } else {
                    assert(live[i] == self.live@[i]);
                }
            }
            assert forall|i: int| 0 <= i < live.len() implies (#[trigger] live[i]).0 < serial + 1 by {
                if i < live.len() - 1 {
                    assert(live[i] == self.live@[i]);
                }
            }
            assert(!has_serial(self.live@, serial));
        }
        let maximum = self.maximum;
        let used = self.used + bytes;
        let identity = self.identity;
        *self = ByteBudget {
            maximum,
            used,
            identity,
            next_serial: Ghost(serial + 1),
            live: Ghost(live),
        };
        Some(BytePermit { bytes, budget: identity, serial: Ghost(serial) })
    }

    /// Hands back a live permit that this budget granted: its bytes are free
    /// again and it is no longer live.
    pub fn release(&mut self, permit: BytePermit)
        requires
            permit.budget_identity() == old(self).identity(),
            old(self)@.live.contains((permit.serial(), permit.amount())),
        ensures
            final(self).identity() == old(self).identity(),
            balanced(final(self)@),
            final(self)@ == after_release(old(self)@, permit.serial(), permit.amount()),
    {
        proof {
            use_type_invariant(&*self);
            lemma_release_accounting(self.live@, permit.serial(), permit.amount());
            lemma_without_kept(self.live@, permit.serial());
        }
        let ghost live = without_serial(self.live@, permit.serial());
        proof {
            assert forall|i: int| 0 <= i < live.len() implies (#[trigger] live[i]).0 < self.next_serial@ by {
                assert(self.live@.contains(live[i]));
            }
        }
        let maximum = self.maximum;
        let used = self.used - permit.bytes;
        let identity = self.identity;
        let next_serial = self.next_serial;
        *self = ByteBudget { maximum, used, identity, next_serial, live: Ghost(live) };
    }

    /// The bytes reserved now: those of the live permits.
    pub fn used(&self) -> (n: usize)
        ensures
            n == self@.used,
            n <= self@.maximum,
            balanced(self@),
    {
        proof {
            use_type_invariant(self);
        }
        self.used
    }

    /// The most bytes that may be reserved at once.
    pub fn maximum(&self) -> (n: usize)
        ensures
            n == self@.maximum,
    {
        self.maximum
    }
}

/// Dropping a serial keeps the other permits, each from the list, and no
/// serial twice.
proof fn lemma_without_kept(live: Seq<(nat, nat)>, serial: nat)
    requires
        distinct_serials(live),
    ensures
        forall|i: int| 0 <= i < without_serial(live, serial).len() ==> live.contains(
            #[trigger] without_serial(live, serial)[i],
        ) && without_serial(live, serial)[i].0 != serial,
        distinct_serials(without_serial(live, serial)),
    decreases live.len(),
{
    if live.len() > 0 {
        let p = live.drop_last();
        assert(distinct_serials(p)) by {
            assert forall|i: int, j: int| 0 <= i < j < p.len() implies (#[trigger] p[i]).0 != (#[trigger] p[j]).0 by {
                assert(p[i] == live[i] && p[j] == live[j]);
            }
        }
        lemma_without_kept(p, serial);
        let r = without_serial(p, serial);
        assert forall|i: int| 0 <= i < r.len() implies live.contains(#[trigger] r[i]) by {
            let k = choose|k: int| 0 <= k < p.len() && p[k] == r[i];
            assert(live[k] == r[i]);
        }
        if live.last().0 != serial {
            let t = live.last();
            let w = r.push(t);
            assert forall|i: int| 0 <= i < w.len() implies live.contains(#[trigger] w[i]) && w[i].0 != serial by {
                if i < r.len() {
                    assert(w[i] == r[i]);
                } else {
                    assert(live[live.len() - 1] == t);
                }
            }
            assert forall|i: int, j: int| 0 <= i < j < w.len() implies (#[trigger] w[i]).0 != (#[trigger] w[j]).0 by {
                if j == r.len() {
                    assert(w[i] == r[i]);
                    let k = choose|k: int| 0 <= k < p.len() && p[k] == r[i];
                    assert(live[k] == r[i]);
                    assert(live[live.len() - 1] == t);
                } else {
                    assert(w[i] == r[i] && w[j] == r[j]);
                }
            }
        }
    }
}

/// Dropping the permit (serial, bytes) from a list without repeated serials
/// takes exactly its bytes off the total.
proof fn lemma_release_accounting(live: Seq<(nat, nat)>, serial: nat, bytes: nat)
    requires
        distinct_serials(live),
        live.contains((serial, bytes)),
    ensures
        live_bytes(without_serial(live, serial)) + bytes == live_bytes(live),
    decreases live.len(),
{
    let p = live.drop_last();
    assert(distinct_serials(p)) by {
        assert forall|i: int, j: int| 0 <= i < j < p.len() implies (#[trigger] p[i]).0 != (#[trigger] p[j]).0 by {
            assert(p[i] == live[i] && p[j] == live[j]);
        }
    }
    let k = choose|k: int| 0 <= k < live.len() && live[k] == (serial, bytes);
    if live.last().0 == serial {
        assert(live[live.len() - 1] == live.last());
        assert(k == live.len() - 1);
        assert(!has_serial(p, serial)) by {
            if has_serial(p, serial) {
                let m = choose|m: int| 0 <= m < p.len() && (#[trigger] p[m]).0 == serial;
                assert(live[m] == p[m]);
            }
        }
        lemma_without_absent(p, serial);
        assert(live.last().1 == bytes);
    } else {
        assert(k < live.len() - 1);
        assert(p[k] == (serial, bytes));
        lemma_release_accounting(p, serial, bytes);
        let r = without_serial(p, serial);
        assert(r.push(live.last()).drop_last() =~= r);
    }
}

/// Dropping a serial no permit has changes nothing.
proof fn lemma_without_absent(live: Seq<(nat, nat)>, serial: nat)
    requires
        !has_serial(live, serial),
    ensures
        without_serial(live, serial) == live,
    decreases live.len(),
{
    if live.len() > 0 {
        let p = live.drop_last();
        assert(!has_serial(p, serial)) by {
            if has_serial(p, serial) {
                let m = choose|m: int| 0 <= m < p.len() && (#[trigger] p[m]).0 == serial;
                assert(live[m] == p[m]);
            }
        }
        lemma_without_absent(p, serial);
        assert(live[live.len() - 1] == live.last());
        assert(p.push(live.last()) =~= live);
    }
}

/// Releasing a granted reservation gives the budget back exactly the state it
/// had before the reservation.
pub proof fn lemma_release_restores(s: BudgetState, bytes: nat, serial: nat)
    requires
        grants(s, bytes),
        !has_serial(s.live, serial),
    ensures
        after_release(after_reserve(s, bytes, serial), serial, bytes) == s,
{
    let grown = s.live.push((serial, bytes));
    assert(grown.drop_last() =~= s.live);
    lemma_without_absent(s.live, serial);
}

/// A reservation is refused exactly when it would push the budget past its
/// maximum, and a refused reservation changes nothing.
pub proof fn lemma_refusal_changes_nothing(s: BudgetState, bytes: nat, serial: nat)
    requires
        !grants(s, bytes),
    ensures
        after_reserve(s, bytes, serial) == s,
        s.used + bytes > s.maximum,
{
}

} // verus!
