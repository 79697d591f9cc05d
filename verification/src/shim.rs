//! Types and traits implemented by shims, for calling from platforms.
pub mod aarch64;

use crate::ids::VmViewId;
use core::ops::Range;
use vstd::prelude::*;

verus! {

/// An object to initialize a newly spawned platform thread for use with the shim that spawned it.
pub trait InitThread: Send + Sized {
    /// The execution context type passed to the shim.
    type ExecutionContext;

    /// The interface for entering the shim on the new thread.
    type Shim: EnterShim<ExecutionContext = Self::ExecutionContext>;

    /// Initializes the thread, returning the shim interface for the new thread.
    fn init(self) -> (shim: Self::Shim);
}

/// An interface for entering the shim from the platform.
pub trait EnterShim: Sized {
    /// The execution context type passed to the shim.
    type ExecutionContext;

    /// Initialize a new thread. Must be called by the platform exactly once before running the
    /// thread in the guest for the first time.
    fn init(&self, ctx: &mut Self::ExecutionContext) -> (next: ContinueOperation);

    /// Handle a syscall.
    fn syscall(&self, ctx: &mut Self::ExecutionContext) -> (next: ContinueOperation);

    /// Handle a hardware exception.
    fn exception(&self, ctx: &mut Self::ExecutionContext, info: &ExceptionInfo) -> (next: ContinueOperation);

    /// Handle an interrupt. If another event occurs while the thread is interrupted, the platform
    /// may just call the corresponding handler instead of this one.
    fn interrupt(&self, ctx: &mut Self::ExecutionContext) -> (next: ContinueOperation);

    /// Re-enter a thread of a guest program or library that is already loaded in memory. Where
    /// that is not supported, the thread just exits.
    fn reenter(&self, _ctx: &mut Self::ExecutionContext) -> (next: ContinueOperation)
        default_ensures
            next == ContinueOperation::Terminate,
            *final(_ctx) == *old(_ctx),
    {
        ContinueOperation::Terminate
    }

    /// Services a classified permission flip, revalidating it against the shim's own bookkeeping
    /// before committing. A shim that does not take part attempts nothing.
    fn memory_service(&self, _req: WxFlipRequest) -> (outcome: WxFlipOutcome)
        default_ensures
            outcome == WxFlipOutcome::HostFailure,
    {
        WxFlipOutcome::HostFailure
    }

    /// Which ancestor view, by fork lineage, holds the real backing content for a page of a view.
    fn cow_custody_ancestor(&self, _view: VmViewId, _page: usize) -> (ancestor: Option<VmViewId>)
        default_ensures
            ancestor is None,
    {
        None
    }

    /// Publishes a view's own private divergence of a range into its family's custody.
    fn cow_custody_publish_divergence(&self, _view: VmViewId, _range: Range<usize>) {
    }

    /// Whether a live family descends from a view's own. Without knowledge, content is rather
    /// preserved than lost.
    fn fork_family_has_live_descendant(&self, _view: VmViewId) -> (yes: bool)
        default_ensures
            yes,
    {
        true
    }
}

/// A classified, not-yet-committed permission flip, handed from a platform's fault classifier to
/// [`EnterShim::memory_service`].
#[derive(Clone, Copy, Debug, PartialEq, Eq, Structural)]
pub struct WxFlipRequest {
    /// The aligned page address to flip.
    pub page: usize,
    /// Whether the page should become executable (`true`) or writable (`false`).
    pub want_execute: bool,
    /// The page's custody generation at classification time, for the commit side's
    /// compare-and-claim against a racing classification of the same page.
    pub expected_generation: u64,
}

/// Result of servicing one [`WxFlipRequest`].
#[derive(Clone, Copy, Debug, PartialEq, Eq, Structural)]
pub enum WxFlipOutcome {
    /// The real permission was flipped, or a racing commit had already produced the same effect.
    /// Carries the duration, in nanoseconds, that the host call took; 0 where none was made.
    Committed(u64),
    /// Another fault on the same page claimed it first; the guest should just resume.
    StaleGeneration,
    /// The page is no longer the view's; refused rather than flipped.
    AliasConflictRefused,
    /// The real change failed at the host level.
    HostFailure,
}

/// The operation to perform after returning from a shim handler
#[derive(Clone, Copy, Debug, PartialEq, Eq, Structural)]
pub enum ContinueOperation {
    /// Resume the interrupted execution.
    Resume,
    /// Terminate the interrupted execution.
    Terminate,
}

/// Information about a hardware exception.
#[derive(Clone, Copy, Debug, PartialEq, Eq, Structural)]
pub struct ExceptionInfo {
    /// The x86 exception type.
    pub exception: Exception,
    /// The hardware error code associated with the exception.
    pub error_code: u32,
    /// The value of the CR2 register at the time of the exception, if applicable.
    pub cr2: usize,
    /// Whether the exception occurred in kernel mode.
    pub kernel_mode: bool,
}

/// An x86 exception type.
#[derive(Clone, Copy, Debug, PartialEq, Eq, Structural)]
pub struct Exception(pub u8);

impl Exception {
    /// #DE
    pub const DIVIDE_ERROR: u8 = 0;

    /// #BP
    pub const BREAKPOINT: u8 = 3;

    /// #UD
    pub const INVALID_OPCODE: u8 = 6;

    /// #GP
    pub const GENERAL_PROTECTION_FAULT: u8 = 13;

    /// #PF
    pub const PAGE_FAULT: u8 = 14;
}

/// The most frames that a [`FrameBacktrace`] holds.
pub const MAX_FRAMES: usize = 8;

/// A bounded, best-effort return-address chain, captured by walking the saved frame-pointer chain
/// from the faulting frame. Entry `i` names the call site in the `i`-th ancestor frame.
#[derive(Clone, Copy, Debug)]
pub struct FrameBacktrace {
    addrs: [u64; 8],
    len: u8,
}

impl View for FrameBacktrace {
    type V = Seq<u64>;

    closed spec fn view(&self) -> Seq<u64> {
        self.addrs@.take(self.len as int)
    }
}

/// The frames that a backtrace keeps of those it is given.
pub open spec fn kept_frames(frames: Seq<u64>) -> Seq<u64> {
    if frames.len() <= MAX_FRAMES {
        frames
    } else {
        frames.take(MAX_FRAMES as int)
    }
}

/// A backtrace gives back what it was built from, if that is not too long; of a longer chain it
/// keeps the first frames.
pub proof fn lemma_backtrace_round_trip(frames: Seq<u64>)
    ensures
        frames.len() <= MAX_FRAMES ==> kept_frames(frames) == frames,
        kept_frames(frames).is_prefix_of(frames),
        kept_frames(frames).len() <= MAX_FRAMES,
        kept_frames(kept_frames(frames)) == kept_frames(frames),
{
}

impl FrameBacktrace {
    /// No more entries than there is room for.
    pub closed spec fn wf(&self) -> bool {
        self.len <= MAX_FRAMES
    }

    /// The empty backtrace.
    pub fn empty() -> (backtrace: Self)
        ensures
            backtrace.wf(),
            backtrace@ == Seq::<u64>::empty(),
    {
        let backtrace = FrameBacktrace { addrs: [0u64;8], len: 0 };
        proof {
            assert(backtrace@ =~= Seq::<u64>::empty());
        }
        backtrace
    }

    /// Builds a backtrace from return addresses. Any entries beyond [`MAX_FRAMES`] are dropped.
    pub fn from_frames(frames: &[u64]) -> (backtrace: Self)
        ensures
            backtrace.wf(),
            backtrace@ == kept_frames(frames@),
    {
        let mut addrs = [0u64;8];
        let mut i: usize = 0;
        while i < frames.len() && i < MAX_FRAMES
            invariant
                i <= frames@.len(),
                i <= MAX_FRAMES,
                addrs@.len() == MAX_FRAMES,
                addrs@.take(i as int) == frames@.take(i as int),
            decreases frames@.len() - i,
        {
            let ghost before = addrs@;
            addrs[i] = frames[i];
            i += 1;
            proof {
                assert(addrs@.take(i as int) =~= before.take(i - 1).push(frames@[i - 1]));
                assert(frames@.take(i as int) =~= frames@.take(i - 1).push(frames@[i - 1]));
            }
        }
        let backtrace = FrameBacktrace { addrs, len: i as u8 };
        proof {
            if frames@.len() <= MAX_FRAMES {
                assert(frames@.take(i as int) =~= frames@);
            }
        }
        backtrace
    }

    /// The captured return addresses.
    pub fn as_slice(&self) -> (frames: &[u64])
        requires
            self.wf(),
        ensures
            frames@ == self@,
    {
        let frames = vstd::slice::slice_subrange(
            vstd::array::array_as_slice(&self.addrs),
            0,
            self.len as usize,
        );
        proof {
            assert(frames@ =~= self@);
        }
        frames
    }
}

impl Default for FrameBacktrace {
    fn default() -> (backtrace: Self)
        ensures
            backtrace.wf(),
            backtrace@ == Seq::<u64>::empty(),
    {
        FrameBacktrace::empty()
    }
}

} // verus!
