//! A counter with several wheels that turn together, each wrapping at its
//! own maximum.

use vstd::arithmetic::div_mod::{lemma_fundamental_div_mod_converse, lemma_small_mod};
use vstd::prelude::*;

verus! {

/// Several wheels that advance in lockstep. Wheel `i` counts from 0 up to
/// `counter_maxes[i] - 1` and then wraps to 0; a wheel is complete once it has
/// wrapped. With `require_simultaneous_completion` the counter is complete
/// when all wheels have wrapped and stand at 0 together; without it, as soon
/// as every wheel has wrapped.
#[derive(Debug)]
pub struct MultiCounter {
    pub counter_maxes: Vec<usize>,
    pub require_simultaneous_completion: bool,
    pub _counter_values: Vec<usize>,
    pub _counter_complete: Vec<bool>,
}

/// The mathematical model of a counter.
pub struct Wheels {
    pub maxes: Seq<usize>,
    pub simultaneous: bool,
    pub values: Seq<usize>,
    pub complete: Seq<bool>,
}

impl Wheels {
    /// The counter as it is made: every wheel at 0, none complete.
    pub open spec fn started(maxes: Seq<usize>, simultaneous: bool) -> Wheels {
        Wheels {
            maxes,
            simultaneous,
            values: Seq::new(maxes.len(), |i: int| 0usize),
            complete: Seq::new(maxes.len(), |i: int| false),
        }
    }

    /// Every wheel has a maximum of at least 1 and stands below it.
    pub open spec fn wf(self) -> bool {
        &&& self.values.len() == self.maxes.len()
        &&& self.complete.len() == self.maxes.len()
        &&& forall|i: int| 0 <= i < self.maxes.len() ==> self.values[i] < self.maxes[i]
    }

    /// The counter after one step: each wheel advances by one, and a wheel
    /// that stood at its last value wraps to 0 and is complete from then on.
    pub open spec fn step(self) -> Wheels {
        Wheels {
            values: Seq::new(
                self.values.len(),
                |i: int|
                    if self.values[i] + 1 == self.maxes[i] {
                        0usize
                    } else {
                        (self.values[i] + 1) as usize
                    },
            ),
            complete: Seq::new(
                self.complete.len(),
                |i: int| self.complete[i] || self.values[i] + 1 == self.maxes[i],
            ),
            ..self
        }
    }

    /// The counter after `k` steps.
    pub open spec fn after(self, k: nat) -> Wheels
        decreases k,
    {
        if k == 0 {
            self
        } else {
            self.after((k - 1) as nat).step()
        }
    }

    /// Every wheel has wrapped.
    pub open spec fn all_wrapped(self) -> bool {
        forall|i: int| 0 <= i < self.complete.len() ==> self.complete[i]
    }

    /// Every wheel stands at 0.
    pub open spec fn all_zero(self) -> bool {
        forall|i: int| 0 <= i < self.values.len() ==> self.values[i] == 0
    }

    /// The counter is complete.
    pub open spec fn is_complete(self) -> bool {
        if self.simultaneous {
            self.all_zero() && self.all_wrapped()
        } else {
            self.all_wrapped()
        }
    }
}

impl View for MultiCounter {
    type V = Wheels;

    open spec fn view(&self) -> Wheels {
        Wheels {
            maxes: self.counter_maxes@,
            simultaneous: self.require_simultaneous_completion,
            values: self._counter_values@,
            complete: self._counter_complete@,
        }
    }
}

impl MultiCounter {
    /// A counter with one wheel per entry of `counter_maxes`, every wheel at 0
    /// and none complete.
    pub fn new(counter_maxes: Vec<usize>, require_simultaneous_completion: bool) -> (counter:
        MultiCounter)
        ensures
            counter@ == Wheels::started(counter_maxes@, require_simultaneous_completion),
    {
        let mut values: Vec<usize> = Vec::new();
        let mut complete: Vec<bool> = Vec::new();
        let mut i: usize = 0;
        while i < counter_maxes.len()
            invariant
                i <= counter_maxes.len(),
                values@.len() == i,
                complete@.len() == i,
                forall|j: int| 0 <= j < i ==> values@[j] == 0,
                forall|j: int| 0 <= j < i ==> !complete@[j],
            decreases counter_maxes.len() - i,
        {
            values.push(0);
            complete.push(false);
            i += 1;
        }
        let counter = MultiCounter {
            counter_maxes,
            require_simultaneous_completion,
            _counter_values: values,
            _counter_complete: complete,
        };
        assert(counter@.values =~= Wheels::started(
            counter_maxes@,
            require_simultaneous_completion,
        ).values);
        assert(counter@.complete =~= Wheels::started(
            counter_maxes@,
            require_simultaneous_completion,
        ).complete);
        counter
    }

    /// Returns the current values of the wheels.
    pub fn get_values(&self) -> (values: Vec<usize>)
        ensures
            values@ == self@.values,
    {
        let mut values: Vec<usize> = Vec::new();
        let mut i: usize = 0;
        while i < self._counter_values.len()
            invariant
                i <= self._counter_values.len(),
                values@ == self._counter_values@.take(i as int),
            decreases self._counter_values.len() - i,
        {
            values.push(self._counter_values[i]);
            assert(self._counter_values@.take(i + 1) =~= self._counter_values@.take(i as int).push(
                self._counter_values@[i as int],
            ));
            i += 1;
        }
        assert(self._counter_values@.take(i as int) =~= self._counter_values@);
        values
    }

    /// Tells whether the counter is complete.
    pub fn check_complete(&self) -> (done: bool)
        ensures
            done == self@.is_complete(),
    {
        let mut wrapped = true;
        let mut i: usize = 0;
        while i < self._counter_complete.len()
            invariant
                i <= self._counter_complete.len(),
                wrapped == (forall|j: int| 0 <= j < i ==> self._counter_complete@[j]),
            decreases self._counter_complete.len() - i,
        {
            if !self._counter_complete[i] {
                wrapped = false;
            }
            i += 1;
        }
        assert(self@.complete == self._counter_complete@);
        assert(wrapped == self@.all_wrapped());
        if !self.require_simultaneous_completion {
            return wrapped;
        }
        let mut zero = true;
        let mut k: usize = 0;
        while k < self._counter_values.len()
            invariant
                k <= self._counter_values.len(),
                zero == (forall|j: int| 0 <= j < k ==> self._counter_values@[j] == 0),
            decreases self._counter_values.len() - k,
        {
            if self._counter_values[k] != 0 {
                zero = false;
            }
            k += 1;
        }
        assert(self@.values == self._counter_values@);
        assert(zero == self@.all_zero());
        zero && wrapped
    }

    /// Advances every wheel by one step.
    pub fn increment(&mut self)
        requires
            old(self)@.wf(),
        ensures
            final(self)@ == old(self)@.step(),
            final(self)@.wf(),
    {
        let mut i: usize = 0;
        while i < self._counter_values.len()
            invariant
                i <= self._counter_values.len(),
                old(self)@.wf(),
                self.counter_maxes == old(self).counter_maxes,
                self.require_simultaneous_completion == old(self).require_simultaneous_completion,
                self._counter_values@.len() == old(self)@.values.len(),
                self._counter_complete@.len() == old(self)@.complete.len(),
                forall|j: int|
                    0 <= j < i ==> self._counter_values@[j] == old(self)@.step().values[j]
                        && self._counter_complete@[j] == old(self)@.step().complete[j],
                forall|j: int|
                    i <= j < self._counter_values.len() ==> self._counter_values@[j] == old(
                        self,
                    )@.values[j] && self._counter_complete@[j] == old(self)@.complete[j],
            decreases self._counter_values.len() - i,
        {
            let value = self._counter_values[i];
            if value == self.counter_maxes[i] - 1 {
                self._counter_complete[i] = true;
                self._counter_values[i] = 0;
            } else {
                self._counter_values[i] = value + 1;
            }
            i += 1;
        }
        assert(self@.values =~= old(self)@.step().values);
        assert(self@.complete =~= old(self)@.step().complete);
    }

    /// Yields the current values and advances the counter, or yields `None`
    /// and leaves the counter alone once it is complete.
    pub fn next(&mut self) -> (item: Option<Vec<usize>>)
        requires
            !old(self)@.is_complete() ==> old(self)@.wf(),
        ensures
            match item {
                None => old(self)@.is_complete() && final(self)@ == old(self)@,
                Some(values) => !old(self)@.is_complete() && values@ == old(self)@.values
                    && final(self)@ == old(self)@.step(),
            },
    {
        if self.check_complete() {
            None
        } else {
            let output = self.get_values();
            self.increment();
            Some(output)
        }
    }
}

/// Advancing a wheel by one: the successor of `k` modulo `m` is 0 where `k`
/// stands at `m - 1` modulo `m`, else one more.
proof fn lemma_mod_successor(k: nat, m: nat)
    requires
        m >= 1,
    ensures
        (k + 1) % m == (if k % m + 1 == m {
            0
        } else {
            k % m + 1
        }),
{
    let q = k / m;
    let r = k % m;
    assert(k == m * q + r && 0 <= r < m) by {
        vstd::arithmetic::div_mod::lemma_fundamental_div_mod(k as int, m as int);
        vstd::arithmetic::div_mod::lemma_mod_pos_bound(k as int, m as int);
    }
    if r + 1 == m {
        assert(k + 1 == (q + 1) * m + 0) by (nonlinear_arith)
            requires
                k == m * q + r,
                r + 1 == m,
        ;
        lemma_fundamental_div_mod_converse((k + 1) as int, m as int, (q + 1) as int, 0);
    } else {
        assert(k + 1 == q * m + (r + 1)) by (nonlinear_arith)
            requires
                k == m * q + r,
        ;
        lemma_fundamental_div_mod_converse((k + 1) as int, m as int, q as int, (r + 1) as int);
    }
}

/// The closed form of counting: after `k` steps from the start, wheel `i`
/// stands at `k` modulo its maximum and is complete exactly if `k` has reached
/// its maximum.
pub proof fn lemma_wheels_after(maxes: Seq<usize>, simultaneous: bool, k: nat)
    requires
        forall|i: int| 0 <= i < maxes.len() ==> maxes[i] >= 1,
    ensures
        Wheels::started(maxes, simultaneous).after(k).wf(),
        Wheels::started(maxes, simultaneous).after(k).maxes == maxes,
        Wheels::started(maxes, simultaneous).after(k).simultaneous == simultaneous,
        forall|i: int|
            0 <= i < maxes.len() ==> (#[trigger] Wheels::started(maxes, simultaneous).after(
                k,
            ).values[i]) == k % (maxes[i] as nat),
        forall|i: int|
            0 <= i < maxes.len() ==> (#[trigger] Wheels::started(maxes, simultaneous).after(
                k,
            ).complete[i]) == (k >= maxes[i]),
    decreases k,
{
    let start = Wheels::started(maxes, simultaneous);
    let now = start.after(k);
    if k == 0 {
        assert forall|i: int| 0 <= i < maxes.len() implies (#[trigger] now.values[i]) == k % (
        maxes[i] as nat) by {
            lemma_small_mod(0, maxes[i] as nat);
        }
        assert forall|i: int| 0 <= i < maxes.len() implies (#[trigger] now.complete[i]) == (k
            >= maxes[i]) by {}
    } else {
        let before = start.after((k - 1) as nat);
        lemma_wheels_after(maxes, simultaneous, (k - 1) as nat);
        assert(now == before.step());
        assert forall|i: int| 0 <= i < maxes.len() implies (#[trigger] now.values[i]) == k % (
        maxes[i] as nat) by {
            lemma_mod_successor((k - 1) as nat, maxes[i] as nat);
            assert(before.values[i] == (k - 1) as nat % (maxes[i] as nat));
        }
        assert forall|i: int| 0 <= i < maxes.len() implies (#[trigger] now.complete[i]) == (k
            >= maxes[i]) by {
            assert(before.values[i] == (k - 1) as nat % (maxes[i] as nat));
            assert(before.complete[i] == (k - 1 >= maxes[i]));
            if k - 1 < maxes[i] {
                lemma_small_mod((k - 1) as nat, maxes[i] as nat);
            }
        }
        assert forall|i: int| 0 <= i < maxes.len() implies now.values[i] < maxes[i] by {
            vstd::arithmetic::div_mod::lemma_mod_pos_bound(k as int, maxes[i] as int);
        }
    }
}

} // verus!
