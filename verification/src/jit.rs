//! Running machine code in memory, one step at a time.
//!
//! Each step is an action for the caller to perform; its outcome decides the
//! next one. The pages are mapped writable, filled, made executable, entered
//! and given back.
use crate::bytes::{align_u128, align_up, lemma_align_up};
use crate::mc_serialize::{decode, decoded};
use crate::target::{MachineCode, McView};
use vstd::prelude::*;

verus! {

pub const PAGE: usize = 4096;

/// How the pages are divided: code, data and heap, each in whole pages.
#[derive(Debug, Clone, Copy, PartialEq, Eq, Structural)]
pub struct JitLayout {
    pub code_len: usize,
    pub data_len: usize,
    pub heap_len: usize,
}

pub open spec fn code_pages(mc: McView) -> int {
    align_up(mc.code.len() as int, PAGE as int)
}

pub open spec fn data_pages(mc: McView) -> int {
    align_up(mc.data.len() as int, PAGE as int)
}

pub open spec fn heap_pages(mc: McView) -> int {
    align_up(mc.heap_size as usize as int, PAGE as int)
}

/// Whether the pages can be counted.
pub open spec fn jit_fits(mc: McView) -> bool {
    code_pages(mc) + data_pages(mc) + heap_pages(mc) <= usize::MAX
}

impl JitLayout {
    pub open spec fn ok(self) -> bool {
        self.code_len + self.data_len + self.heap_len <= usize::MAX
    }

    pub open spec fn total(self) -> int {
        self.code_len + self.data_len + self.heap_len
    }
}

/// The layout for `mc`; `None` where its size does not fit.
pub fn jit_layout(mc: &MachineCode) -> (r: Option<JitLayout>)
    ensures
        jit_fits(mc@) <==> r is Some,
        r matches Some(l) ==> l.ok() && l.code_len == code_pages(mc@) && l.data_len == data_pages(
            mc@,
        ) && l.heap_len == heap_pages(mc@),
{
    let page: u128 = PAGE as u128;
    let c: u128 = align_u128(mc.code.len() as u128, page);
    let d: u128 = align_u128(mc.data.len() as u128, page);
    let h: u128 = align_u128(mc.heap_size as usize as u128, page);
    if c + d + h > usize::MAX as u128 {
        return None;
    }
    Some(JitLayout { code_len: c as usize, data_len: d as usize, heap_len: h as usize })
}

/// What there is to run in `bytes`: machine code and its layout, or `None` in
/// place of a layout that does not fit.
pub fn jit_plan(bytes: &[u8]) -> (r: Result<(MachineCode, Option<JitLayout>), String>)
    ensures
        match decoded(bytes@) {
            Ok(mc) => r matches Ok(plan) && plan.0@ == mc && (jit_fits(mc) <==> plan.1 is Some) && (
            plan.1 matches Some(l) ==> l.ok() && l.code_len == code_pages(mc) && l.data_len
                == data_pages(mc) && l.heap_len == heap_pages(mc)),
            Err(e) => r matches Err(m) && m@ == e,
        },
{
    match decode(bytes) {
        Ok(mc) => {
            let layout: Option<JitLayout> = jit_layout(&mc);
            Ok((mc, layout))
        },
        Err(e) => Err(e),
    }
}

/// What to do next.
#[derive(Debug)]
pub enum JitAction {
    /// Map this many writable bytes.
    MapPages { len: usize },
    /// Relocate the code for these addresses and copy code and data there.
    /// With `heap_head`, set the first two words of the heap to it.
    Install { code_at: u64, data_at: u64, heap_at: u64, heap_head: Option<(u64, u64)> },
    /// Make the code executable.
    Protect { addr: u64, len: usize },
    /// Call the code.
    Invoke { addr: u64 },
    /// Give the pages back.
    UnmapPages { addr: u64, len: usize },
    /// The code has returned this status.
    Finish { status: i32 },
    Fail { message: String },
}

/// What came of the last action.
#[derive(Debug)]
pub enum JitEvent {
    Start,
    Mapped(Result<u64, String>),
    Installed,
    Protected(Result<(), String>),
    Returned(i32),
    Unmapped,
}

/// How far a run has come.
#[derive(Debug, Clone, Copy, PartialEq, Eq, Structural)]
pub enum JitStage {
    Ready,
    Mapping,
    Installing { page: u64 },
    Protecting { page: u64 },
    Running { page: u64 },
    Leaving { status: i32 },
    Done,
}

/// Whether `event` is what the last action of `stage` comes to.
pub open spec fn expected(stage: JitStage, event: JitEvent) -> bool {
    match stage {
        JitStage::Ready => event is Start,
        JitStage::Mapping => event is Mapped,
        JitStage::Installing { .. } => event is Installed,
        JitStage::Protecting { .. } => event is Protected,
        JitStage::Running { .. } => event is Returned,
        JitStage::Leaving { .. } => event is Unmapped,
        JitStage::Done => false,
    }
}

/// Whether pages at `page` can hold layout `l`, with the second heap page in
/// reach.
pub open spec fn page_ok(l: JitLayout, page: u64) -> bool {
    page + l.total() + PAGE <= u64::MAX
}

pub open spec fn data_at(l: JitLayout, page: u64) -> u64 {
    (page + l.code_len) as u64
}

pub open spec fn heap_at(l: JitLayout, page: u64) -> u64 {
    (page + l.code_len + l.data_len) as u64
}

/// Code, data and heap each have room in their pages, one behind the other.
pub proof fn areas_have_room(mc: McView, l: JitLayout, page: u64)
    requires
        l.code_len == code_pages(mc),
        l.data_len == data_pages(mc),
        l.heap_len == heap_pages(mc),
        page_ok(l, page),
    ensures
        page + mc.code.len() <= data_at(l, page),
        data_at(l, page) + mc.data.len() <= heap_at(l, page),
        heap_at(l, page) + mc.heap_size as usize <= page + l.total(),
{
    lemma_align_up(mc.code.len() as int, PAGE as int);
    lemma_align_up(mc.data.len() as int, PAGE as int);
    lemma_align_up(mc.heap_size as usize as int, PAGE as int);
}

/// The next stage, and the action that leads on from it.
pub fn jit_next(l: &JitLayout, stage: JitStage, event: JitEvent) -> (r: (JitStage, JitAction))
    requires
        l.ok(),
        expected(stage, event),
        event matches JitEvent::Mapped(Ok(page)) ==> page_ok(*l, page),
    ensures
        match event {
            JitEvent::Start => r.0 == JitStage::Mapping && r.1 == (JitAction::MapPages {
                len: l.total() as usize,
            }),
            JitEvent::Mapped(Ok(page)) => r.0 == (JitStage::Installing { page }) && r.1 == (
            JitAction::Install {
                code_at: page,
                data_at: data_at(*l, page),
                heap_at: heap_at(*l, page),
                heap_head: if l.heap_len > 0 {
                    Some((0u64, (heap_at(*l, page) + PAGE) as u64))
                } else {
                    None
                },
            }),
            JitEvent::Mapped(Err(e)) => r.0 == JitStage::Done && (r.1 matches JitAction::Fail {
                message,
            } && message@ == "mmap: "@ + e@),
            JitEvent::Installed => r.0 == (JitStage::Protecting {
                page: stage->Installing_page,
            }) && r.1 == (JitAction::Protect { addr: stage->Installing_page, len: l.code_len }),
            JitEvent::Protected(Ok(_)) => r.0 == (JitStage::Running {
                page: stage->Protecting_page,
            }) && r.1 == (JitAction::Invoke { addr: stage->Protecting_page }),
            JitEvent::Protected(Err(e)) => r.0 == JitStage::Done && (r.1 matches JitAction::Fail {
                message,
            } && message@ == "mprotect: "@ + e@),
            JitEvent::Returned(status) => r.0 == (JitStage::Leaving { status }) && r.1 == (
            JitAction::UnmapPages { addr: stage->Running_page, len: l.total() as usize }),
            JitEvent::Unmapped => r.0 == JitStage::Done && r.1 == (JitAction::Finish {
                status: stage->status,
            }),
        },
        r.1 is Invoke ==> stage is Protecting && (event matches JitEvent::Protected(Ok(_))),
{
    match event {
        JitEvent::Start => (
            JitStage::Mapping,
            JitAction::MapPages { len: l.code_len + l.data_len + l.heap_len },
        ),
        JitEvent::Mapped(Ok(page)) => {
            let data: u64 = page + l.code_len as u64;
            let heap: u64 = data + l.data_len as u64;
            let head: Option<(u64, u64)> = if l.heap_len > 0 {
                Some((0, heap + PAGE as u64))
            } else {
                None
            };
            (
                JitStage::Installing { page },
                JitAction::Install { code_at: page, data_at: data, heap_at: heap, heap_head: head },
            )
        },
        JitEvent::Mapped(Err(e)) => {
            let mut message: String = "mmap: ".to_owned();
            message.append(e.as_str());
            (JitStage::Done, JitAction::Fail { message })
        },
        JitEvent::Installed => match stage {
            JitStage::Installing { page } => (
                JitStage::Protecting { page },
                JitAction::Protect { addr: page, len: l.code_len },
            ),
            _ => (JitStage::Done, JitAction::Finish { status: 0 }),
        },
        JitEvent::Protected(Ok(_)) => match stage {
            JitStage::Protecting { page } => (
                JitStage::Running { page },
                JitAction::Invoke { addr: page },
            ),
            _ => (JitStage::Done, JitAction::Finish { status: 0 }),
        },
        JitEvent::Protected(Err(e)) => {
            let mut message: String = "mprotect: ".to_owned();
            message.append(e.as_str());
            (JitStage::Done, JitAction::Fail { message })
        },
        JitEvent::Returned(status) => match stage {
            JitStage::Running { page } => (
                JitStage::Leaving { status },
                JitAction::UnmapPages { addr: page, len: l.code_len + l.data_len + l.heap_len },
            ),
            _ => (JitStage::Done, JitAction::Finish { status: 0 }),
        },
        JitEvent::Unmapped => match stage {
            JitStage::Leaving { status } => (JitStage::Done, JitAction::Finish { status }),
            _ => (JitStage::Done, JitAction::Finish { status: 0 }),
        },
    }
}

} // verus!
