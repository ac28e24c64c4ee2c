//! The bookkeeping of the speculative-execution predictor: the rolling
//! history of observed calls, the table from output classes to predicted
//! calls, and the speculative requests built from ranked classes.
use crate::protocol::{OffloadRequest, FLAG_SPECULATIVE};
use vstd::prelude::*;

verus! {

/// Number of output classes of the predictor.
pub const OUTPUT_SIZE: usize = 128;

/// History entries kept.
pub const HISTORY_LEN: usize = 32;

/// Number of speculative predictions generated per observed request.
pub const PREDICTION_COUNT: usize = 3;

/// The default target of output class `i`: the syscalls `write`, `ioctl`,
/// `futex` and an unknown one in turn, at PC `i * 0x100`.
pub open spec fn default_target(i: int) -> (u32, u64) {
    let func_id: u32 = if i % 4 == 0 {
        64
    } else if i % 4 == 1 {
        29
    } else if i % 4 == 2 {
        98
    } else {
        0
    };
    (func_id, (i * 0x100) as u64)
}

/// The speculative request predicted for the `i`-th ranked class.
pub open spec fn predicted_request(
    req: OffloadRequest,
    target: (u32, u64),
    i: int,
) -> crate::protocol::RequestView {
    crate::protocol::RequestView {
        session_id: req.session_id,
        seq: (req.seq + i + 1) as u32,
        func_id: target.0,
        flags: FLAG_SPECULATIVE,
        payload: Seq::empty(),
        registers: req.registers@,
        pc: target.1,
    }
}

/// History of observed `(func_id, pc)` pairs and the mapping from output
/// classes to the `(func_id, pc)` they predict.
#[derive(Debug, Clone)]
pub struct SpeculationTable {
    history: Vec<(u32, u64)>,
    class_to_target: Vec<(u32, u64)>,
}

impl SpeculationTable {
    /// The observed calls, oldest first.
    pub closed spec fn history(self) -> Seq<(u32, u64)> {
        self.history@
    }

    /// The target of each output class.
    pub closed spec fn targets(self) -> Seq<(u32, u64)> {
        self.class_to_target@
    }

    /// One target per class, and no more history than kept.
    pub open spec fn wf(self) -> bool {
        self.targets().len() == OUTPUT_SIZE && self.history().len() <= HISTORY_LEN
    }

    /// A table with no history and the default class targets.
    pub fn new() -> (t: Self)
        ensures
            t.wf(),
            t.history() == Seq::<(u32, u64)>::empty(),
            t.targets() == Seq::new(OUTPUT_SIZE as nat, |i: int| default_target(i)),
    {
        let mut class_to_target: Vec<(u32, u64)> = Vec::with_capacity(OUTPUT_SIZE);
        let mut i: usize = 0;
        while i < OUTPUT_SIZE
            invariant
                i <= OUTPUT_SIZE,
                class_to_target@ == Seq::new(i as nat, |k: int| default_target(k)),
            decreases OUTPUT_SIZE - i,
        {
            let func_id: u32 = if i % 4 == 0 {
                64
            } else if i % 4 == 1 {
                29
            } else if i % 4 == 2 {
                98
            } else {
                0
            };
            class_to_target.push((func_id, (i as u64) * 0x100));
            i = i + 1;
            assert(class_to_target@ =~= Seq::new(i as nat, |k: int| default_target(k)));
        }
        SpeculationTable { history: Vec::with_capacity(HISTORY_LEN), class_to_target }
    }

    /// Records an observed request: appends it to the history (dropping the
    /// oldest entry beyond `HISTORY_LEN`) and makes it the target of class
    /// `pc % OUTPUT_SIZE`.
    pub fn observe(&mut self, req: &OffloadRequest)
        requires
            old(self).wf(),
        ensures
            final(self).wf(),
            ({
                let h = old(self).history().push((req.func_id, req.pc));
                final(self).history() == if h.len() > HISTORY_LEN {
                    h.drop_first()
                } else {
                    h
                }
            }),
            final(self).targets() == old(self).targets().update(
                (req.pc % OUTPUT_SIZE as u64) as int,
                (req.func_id, req.pc),
            ),
    {
        self.history.push((req.func_id, req.pc));
        if self.history.len() > HISTORY_LEN {
            self.history.remove(0);
        }
        let class_idx = (req.pc % (OUTPUT_SIZE as u64)) as usize;
        self.class_to_target.set(class_idx, (req.func_id, req.pc));
    }

    /// The speculative requests for the first `PREDICTION_COUNT` ranked
    /// classes: the `i`-th has sequence number `req.seq + i + 1`, the class's
    /// target function and PC, the speculative flag, no payload, and the
    /// request's registers.
    pub fn predictions(&self, req: &OffloadRequest, ranked: &[usize]) -> (r: Vec<OffloadRequest>)
        requires
            self.wf(),
            forall|i: int| 0 <= i < ranked@.len() ==> #[trigger] ranked@[i] < OUTPUT_SIZE,
            req.seq + PREDICTION_COUNT <= u32::MAX || req.seq + ranked@.len() <= u32::MAX,
        ensures
            r@.len() == if ranked@.len() < PREDICTION_COUNT {
                ranked@.len()
            } else {
                PREDICTION_COUNT as nat
            },
            forall|i: int|
                0 <= i < r@.len() ==> #[trigger] r@[i]@ == predicted_request(
                    *req,
                    self.targets()[ranked@[i] as int],
                    i,
                ),
    {
        let count = if ranked.len() < PREDICTION_COUNT {
            ranked.len()
        } else {
            PREDICTION_COUNT
        };
        let mut predictions: Vec<OffloadRequest> = Vec::with_capacity(PREDICTION_COUNT);
        let mut i: usize = 0;
        while i < count
            invariant
                i <= count <= PREDICTION_COUNT,
                count <= ranked@.len(),
                req.seq + count <= u32::MAX,
                self.wf(),
                forall|j: int| 0 <= j < ranked@.len() ==> #[trigger] ranked@[j] < OUTPUT_SIZE,
                predictions@.len() == i,
                forall|j: int|
                    0 <= j < i ==> #[trigger] predictions@[j]@ == predicted_request(
                        *req,
                        self.targets()[ranked@[j] as int],
                        j,
                    ),
            decreases count - i,
        {
            let class_idx = ranked[i];
            let (pred_func_id, pred_pc) = self.class_to_target[class_idx];
            let p = OffloadRequest {
                session_id: req.session_id,
                seq: req.seq + (i as u32) + 1,
                func_id: pred_func_id,
                flags: FLAG_SPECULATIVE,
                payload: Vec::new(),
                registers: req.registers,
                pc: pred_pc,
            };
            assert(p@ == predicted_request(*req, self.targets()[ranked@[i as int] as int], i as int));
            predictions.push(p);
            i = i + 1;
        }
        predictions
    }

    /// Clears the history; the class targets stay.
    pub fn clear_history(&mut self)
        requires
            old(self).wf(),
        ensures
            final(self).wf(),
            final(self).history() == Seq::<(u32, u64)>::empty(),
            final(self).targets() == old(self).targets(),
    {
        self.history.clear();
    }
}

} // verus!
