//! First-in, first-out queues of receipts that know their own weight.

use vstd::prelude::*;
use std::collections::VecDeque;
use crate::receipt::lemma_total_gas_bound;
use crate::receipt::lemma_total_gas_drop_first;
use crate::receipt::lemma_total_size_bound;
use crate::receipt::lemma_total_size_drop_first;
use crate::receipt::total_gas;
use crate::receipt::total_size;
use crate::receipt::Receipt;

verus! {

/// A FIFO of receipts. It keeps the sums of the bytes and of the attached
/// gas of what it holds, so that reading them costs nothing. The sums are
/// kept in 128 bits: no queue that fits in memory overflows them.
pub struct Queue {
    receipts: VecDeque<Receipt>,
    size: u128,
    attached_gas: u128,
}

impl View for Queue {
    type V = Seq<Receipt>;

    /// The receipts in the order in which they will leave.
    closed spec fn view(&self) -> Seq<Receipt> {
        self.receipts@
    }
}

impl Queue {
    /// The sums that the queue keeps are those of its receipts.
    pub closed spec fn wf(&self) -> bool {
        &&& self.size == total_size(self.receipts@)
        &&& self.attached_gas == total_gas(self.receipts@)
    }

    /// A queue in which nothing waits.
    pub fn new() -> (queue: Queue)
        ensures
            queue.wf(),
            queue@ == Seq::<Receipt>::empty(),
    {
        Queue { receipts: VecDeque::new(), size: 0, attached_gas: 0 }
    }

    /// The number of receipts that wait.
    pub fn len(&self) -> (len: usize)
        ensures
            len == self@.len(),
    {
        self.receipts.len()
    }

    /// The receipt that leaves next, if any waits.
    pub fn front(&self) -> (receipt: Option<Receipt>)
        ensures
            receipt == (if self@.len() > 0 {
                Some(self@[0])
            } else {
                None
            }),
    {
        if self.receipts.len() > 0 {
            Some(self.receipts[0])
        } else {
            None
        }
    }

    /// Takes out the receipt that has waited longest.
    pub fn pop_front(&mut self) -> (receipt: Option<Receipt>)
        requires
            old(self).wf(),
        ensures
            final(self).wf(),
            old(self)@.len() == 0 ==> receipt.is_none() && final(self)@ == old(self)@,
            old(self)@.len() > 0 ==> receipt == Some(old(self)@[0])
                && final(self)@ == old(self)@.drop_first(),
    {
        let ghost before = self.receipts@;
        match self.receipts.pop_front() {
            None => None,
            Some(receipt) => {
                proof {
                    assert(self.receipts@ =~= before.drop_first());
                    lemma_total_size_drop_first(before);
                    lemma_total_gas_drop_first(before);
                }
                self.size = self.size - receipt.size as u128;
                self.attached_gas = self.attached_gas - receipt.attached_gas as u128;
                Some(receipt)
            },
        }
    }

    /// Puts `receipt` behind all that wait.
    pub fn push_back(&mut self, receipt: Receipt)
        requires
            old(self).wf(),
        ensures
            final(self).wf(),
            final(self)@ == old(self)@.push(receipt),
    {
        let ghost before = self.receipts@;
        self.receipts.push_back(receipt);
        let len = self.receipts.len();
        proof {
            assert(self.receipts@.drop_last() =~= before);
            lemma_total_size_bound(self.receipts@);
            lemma_total_gas_bound(self.receipts@);
            assert(len * u64::MAX <= u64::MAX * u64::MAX) by (nonlinear_arith)
                requires
                    len <= u64::MAX,
            ;
        }
        self.size = self.size + receipt.size as u128;
        self.attached_gas = self.attached_gas + receipt.attached_gas as u128;
    }

    /// The bytes of all receipts that wait.
    pub fn size(&self) -> (size: u128)
        requires
            self.wf(),
        ensures
            size == total_size(self@),
    {
        self.size
    }

    /// The attached gas of all receipts that wait.
    pub fn attached_gas(&self) -> (gas: u128)
        requires
            self.wf(),
        ensures
            gas == total_gas(self@),
    {
        self.attached_gas
    }
}

} // verus!
