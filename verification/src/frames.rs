use vstd::prelude::*;
use crate::bytes::le_value;
use crate::value::LightValue;
use crate::virmac::{grown, CallFrame, FrameInstruction, VirMac};

verus! {

/// What one turn of running the frames leaves to the one who runs them.
#[derive(Debug, Clone, Copy, PartialEq, Eq, Structural)]
pub enum Turn {
    /// Every frame has left: the program is over.
    Finished,
    /// The machine went on by itself.
    Moved,
    /// Run builtin `index` on the values at `start..end` of the stack and
    /// put its result at `start`.
    Builtin(u16, usize, usize),
    /// Fold the floats at `start..end` of the stack with this operation code
    /// and put the result at `start`.
    Float(u8, usize, usize),
    /// The top frame's next instruction cannot run.
    Stuck,
    /// The top frame calls a function it cannot enter.
    Unenterable(u16),
}

impl VirMac {
    /// Whether `caller` can call the function whose start has index
    /// `start_index`: the header is in the code, the callee's part of the
    /// stack fits, and the caller holds the arguments and references.
    pub open spec fn enterable(&self, caller: CallFrame, start_index: u16) -> bool {
        &&& (start_index as int) < self.function_starts@.len()
        &&& self.function_starts@[start_index as int] + 12 <= self.memory.functions@.len()
        &&& ({
            let code = self.memory.functions@;
            let start = self.function_starts@[start_index as int] as int;
            let variables = le_value(code.subrange(start + 8, start + 10));
            &&& caller.stack_position + variables + code[start + 11] <= usize::MAX
            &&& caller.stack_position >= code[start + 10] + code[start + 11]
            &&& start + 12 + le_value(code.subrange(start, start + 8)) <= usize::MAX
        })
    }

    /// The frame of a call by `caller` to the function whose start has
    /// index `start_index`.
    pub open spec fn entered(&self, caller: CallFrame, start_index: u16) -> CallFrame {
        let code = self.memory.functions@;
        let start = self.function_starts@[start_index as int] as int;
        let variables = le_value(code.subrange(start + 8, start + 10));
        let arity = code[start + 10];
        let references = code[start + 11];
        CallFrame {
            instruction_position: (start + 12) as usize,
            end_instruction: (start + 12 + le_value(code.subrange(start, start + 8))) as usize,
            stack_position: (caller.stack_position + variables + references) as usize,
            base_pointer: (caller.stack_position - arity - references) as usize,
            reference_pointer: (caller.stack_position - arity) as usize,
        }
    }

    /// One turn of running the frames. With no frame left the program is
    /// over. A top frame at the end of its code leaves. Otherwise its next
    /// instruction runs, if it can: a return then pops the frame, a call
    /// pushes the callee's frame on top of the caller's (if the callee can
    /// be entered), and a builtin or a float fold is handed to the caller
    /// of this function, with the frame already past the instruction.
    pub fn run_turn(&mut self, frames: &mut Vec<CallFrame>, stack: &mut Vec<LightValue>) -> (turn: Turn)
        ensures
            old(frames)@.len() == 0 ==> turn == Turn::Finished && *final(self) == *old(self)
                && final(frames)@ == old(frames)@ && final(stack)@ == old(stack)@,
            old(frames)@.len() > 0 ==> ({
                let top = old(frames)@.last();
                let rest = old(frames)@.drop_last();
                if top.instruction_position == top.end_instruction {
                    &&& turn == Turn::Moved
                    &&& final(frames)@ == rest
                    &&& final(stack)@ == old(stack)@
                    &&& *final(self) == *old(self)
                } else if !old(self).dispatchable(top, old(stack)@) {
                    &&& turn == Turn::Stuck
                    &&& final(frames)@ == old(frames)@
                    &&& final(stack)@ == old(stack)@
                    &&& *final(self) == *old(self)
                } else {
                    let s = grown(old(stack)@, top.stack_position as int);
                    let (frame, after, request) = old(self).step(top, s);
                    &&& final(stack)@ == after
                    &&& final(self).memory.from_space@ == old(self).step_heap(top, s)
                    &&& final(self).memory.functions == old(self).memory.functions
                    &&& final(self).memory.permanent_space == old(self).memory.permanent_space
                    &&& final(self).memory.to_space == old(self).memory.to_space
                    &&& final(self).constants_pool == old(self).constants_pool
                    &&& final(self).heavy_constant_starts == old(self).heavy_constant_starts
                    &&& final(self).function_starts == old(self).function_starts
                    &&& match request {
                        None => turn == Turn::Moved && final(frames)@ == rest.push(frame),
                        Some(FrameInstruction::Pop) => turn == Turn::Moved && final(frames)@ == rest,
                        Some(FrameInstruction::Builtin(index, start, end)) => turn == Turn::Builtin(index, start, end)
                            && final(frames)@ == rest.push(frame),
                        Some(FrameInstruction::Float(code, start, end)) => turn == Turn::Float(code, start, end)
                            && final(frames)@ == rest.push(frame),
                        Some(FrameInstruction::New(start_index)) => if old(self).enterable(frame, start_index) {
                            turn == Turn::Moved && final(frames)@ == rest.push(frame).push(old(self).entered(frame, start_index))
                        } else {
                            turn == Turn::Unenterable(start_index) && final(frames)@ == rest.push(frame)
                        },
                    }
                }
            }),
    {
        let count = frames.len();
        if count == 0 {
            return Turn::Finished;
        }
        let mut frame = frames[count - 1];
        if frame.instruction_position == frame.end_instruction {
            frames.pop();
            return Turn::Moved;
        }
        if !self.can_dispatch(&frame, stack) {
            return Turn::Stuck;
        }
        let request = self.dispatch_instruction(&mut frame, stack);
        frames.set(count - 1, frame);
        proof {
            assert(frames@ =~= old(frames)@.drop_last().push(frame));
        }
        match request {
            None => Turn::Moved,
            Some(FrameInstruction::Pop) => {
                frames.pop();
                proof {
                    assert(frames@ =~= old(frames)@.drop_last());
                }
                Turn::Moved
            },
            Some(FrameInstruction::Builtin(index, start, end)) => Turn::Builtin(index, start, end),
            Some(FrameInstruction::Float(code, start, end)) => Turn::Float(code, start, end),
            Some(FrameInstruction::New(start_index)) => {
                if self.can_enter(&frame, start_index) {
                    let callee = self.new_frame(&frame, start_index);
                    frames.push(callee);
                    Turn::Moved
                } else {
                    Turn::Unenterable(start_index)
                }
            },
        }
    }
}

} // verus!
