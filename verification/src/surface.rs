//! What is done on a window's surface, frame by frame.

use vstd::prelude::*;

verus! {

/// What is set up on a surface: its size, for how many cells there is room and
/// of what lattice the parameters speak.
#[derive(Debug, Clone, Copy, PartialEq, Eq, Structural)]
pub struct SurfaceState {
    pub width: u32,
    pub height: u32,
    pub occ_capacity: usize,
    pub lattice_w: u32,
    pub lattice_h: u32,
}

/// What a frame calls for.
#[derive(Debug, Clone, Copy, PartialEq, Eq, Structural)]
pub enum FramePlan {
    /// There is nothing to draw.
    Skip,
    Draw {
        /// A store of so many bytes is to take the place of the one for the
        /// cells.
        grow: Option<u64>,
        /// The parameters are to be written anew.
        rewrite: bool,
        /// So many bytes of the cells are to be written.
        byte_len: usize,
    },
}

/// How asking for the next frame went.
#[derive(Debug, Clone, Copy, PartialEq, Eq, Structural)]
pub enum FrameStatus {
    Ready,
    Outdated,
    Lost,
    Failed,
}

/// What is done about it.
#[derive(Debug, Clone, Copy, PartialEq, Eq, Structural)]
pub enum FrameAction {
    Present,
    /// The surface is configured anew; the next frame is drawn again.
    Reconfigure,
    Drop,
}

/// `after` is what is set up once the window measures `w` by `h`, and `anew` says
/// whether the surface has to be configured anew.
pub open spec fn resized(before: SurfaceState, w: u32, h: u32, after: SurfaceState, anew: bool) -> bool {
    &&& anew == (w != 0 && h != 0 && (before.width != w || before.height != h))
    &&& after == (if anew {
        SurfaceState { width: w, height: h, ..before }
    } else {
        before
    })
}

/// `after` is what is set up once a frame of a lattice is planned, and `plan` what
/// that frame calls for.
pub open spec fn planned(before: SurfaceState, lattice_w: u32, lattice_h: u32, after: SurfaceState, plan: FramePlan) -> bool {
    let needed = lattice_w * lattice_h;
    let grows = needed > before.occ_capacity;
    if needed == 0 {
        plan == FramePlan::Skip && after == before
    } else {
        &&& plan == (FramePlan::Draw {
            grow: if grows {
                Some((4 * needed) as u64)
            } else {
                None
            },
            rewrite: lattice_w != before.lattice_w || lattice_h != before.lattice_h,
            byte_len: (4 * needed) as usize,
        })
        &&& after == (SurfaceState {
            occ_capacity: (if grows {
                needed
            } else {
                before.occ_capacity as int
            }) as usize,
            lattice_w,
            lattice_h,
            ..before
        })
    }
}

impl SurfaceState {
    /// A surface for a window that measures `width` by `height`, one cell at
    /// least, with room for one cell.
    pub fn new(width: i32, height: i32) -> (s: Self)
        ensures
            s == (SurfaceState {
                width: (if width > 1 {
                    width
                } else {
                    1i32
                }) as u32,
                height: (if height > 1 {
                    height
                } else {
                    1i32
                }) as u32,
                occ_capacity: 1,
                lattice_w: 1,
                lattice_h: 1,
            }),
    {
        SurfaceState {
            width: (if width > 1 { width } else { 1i32 }) as u32,
            height: (if height > 1 { height } else { 1i32 }) as u32,
            occ_capacity: 1,
            lattice_w: 1,
            lattice_h: 1,
        }
    }

    /// The window has a new size. Returns whether the surface has to be
    /// configured anew, which no change and an empty window do not call for.
    pub fn resize(&mut self, w: u32, h: u32) -> (r: bool)
        ensures
            resized(*old(self), w, h, *final(self), r),
    {
        if w == 0 || h == 0 {
            return false;
        }
        if self.width == w && self.height == h {
            return false;
        }
        self.width = w;
        self.height = h;
        true
    }

    /// Plans a frame of a lattice whose cells are at hand as `occ_len` words.
    /// The store for them grows where it is too small, and never shrinks.
    pub fn plan_frame(&mut self, lattice_w: u32, lattice_h: u32, occ_len: usize) -> (plan: FramePlan)
        requires
            lattice_w * lattice_h <= occ_len,
            4 * (lattice_w * lattice_h) <= usize::MAX,
        ensures
            planned(*old(self), lattice_w, lattice_h, *final(self), plan),
    {
        let needed = lattice_w as usize * lattice_h as usize;
        if needed == 0 {
            return FramePlan::Skip;
        }
        let grow = if needed > self.occ_capacity {
            self.occ_capacity = needed;
            Some((needed * 4) as u64)
        } else {
            None
        };
        let rewrite = lattice_w != self.lattice_w || lattice_h != self.lattice_h;
        self.lattice_w = lattice_w;
        self.lattice_h = lattice_h;
        FramePlan::Draw { grow, rewrite, byte_len: needed * 4 }
    }
}

/// What is done once the next frame was asked for.
pub fn on_frame(status: FrameStatus) -> (r: FrameAction)
    ensures
        r == (match status {
            FrameStatus::Ready => FrameAction::Present,
            FrameStatus::Outdated => FrameAction::Reconfigure,
            FrameStatus::Lost => FrameAction::Reconfigure,
            FrameStatus::Failed => FrameAction::Drop,
        }),
{
    match status {
        FrameStatus::Ready => FrameAction::Present,
        FrameStatus::Outdated | FrameStatus::Lost => FrameAction::Reconfigure,
        FrameStatus::Failed => FrameAction::Drop,
    }
}

/// The place of the first of the offers that is liked, the very first if none
/// is.
pub fn first_liked(liked: &Vec<bool>) -> (i: usize)
    requires
        liked@.len() > 0,
    ensures
        i < liked@.len(),
        if exists|k: int| 0 <= k < liked@.len() && #[trigger] liked@[k] {
            liked@[i as int] && forall|k: int| 0 <= k < i ==> !(#[trigger] liked@[k])
        } else {
            i == 0
        },
{
    let mut i: usize = 0;
    while i < liked.len()
        invariant
            i <= liked@.len(),
            forall|k: int| 0 <= k < i ==> !(#[trigger] liked@[k]),
        decreases liked@.len() - i,
    {
        if liked[i] {
            return i;
        }
        i = i + 1;
    }
    0
}

/// There is always room for what is drawn: the store never shrinks, is replaced by
/// one that takes the whole lattice where it is too small, and holds every byte that
/// is written, four for a cell. The next frame of the same lattice calls for no new
/// store, and for no other parameters.
pub proof fn law_frames_have_room(
    before: SurfaceState,
    lattice_w: u32,
    lattice_h: u32,
    mid: SurfaceState,
    plan: FramePlan,
    after: SurfaceState,
    again: FramePlan,
)
    requires
        planned(before, lattice_w, lattice_h, mid, plan),
        planned(mid, lattice_w, lattice_h, after, again),
        4 * (lattice_w * lattice_h) <= usize::MAX,
    ensures
        plan == FramePlan::Skip <==> lattice_w == 0 || lattice_h == 0,
        plan matches FramePlan::Draw { grow, rewrite, byte_len } ==> {
            &&& byte_len == 4 * (lattice_w * lattice_h)
            &&& byte_len <= 4 * mid.occ_capacity
            &&& before.occ_capacity <= mid.occ_capacity
            &&& grow matches Some(bytes) ==> bytes == byte_len == 4 * mid.occ_capacity && before.occ_capacity < mid.occ_capacity
            &&& grow is None ==> mid.occ_capacity == before.occ_capacity
            &&& !rewrite <==> (before.lattice_w, before.lattice_h) == (lattice_w, lattice_h)
            &&& again == (FramePlan::Draw { grow: None, rewrite: false, byte_len })
            &&& after == mid
        },
        (mid.width, mid.height) == (before.width, before.height),
{
    let (a, b) = (lattice_w as int, lattice_h as int);
    assert(a * b == 0 <==> a == 0 || b == 0) by (nonlinear_arith)
        requires
            a >= 0,
            b >= 0,
    ;
    assert(a * b >= 0) by (nonlinear_arith)
        requires
            a >= 0,
            b >= 0,
    ;
}

/// A surface follows its window, but for one that is empty: it measures as much from
/// then on, and the same size again calls for nothing.
pub proof fn law_surfaces_follow_their_window(
    before: SurfaceState,
    w: u32,
    h: u32,
    mid: SurfaceState,
    anew: bool,
    after: SurfaceState,
    again: bool,
)
    requires
        resized(before, w, h, mid, anew),
        resized(mid, w, h, after, again),
    ensures
        w > 0 && h > 0 ==> mid.width == w && mid.height == h,
        w == 0 || h == 0 ==> mid == before && !anew,
        anew <==> mid != before,
        !again && after == mid,
        (mid.occ_capacity, mid.lattice_w, mid.lattice_h) == (before.occ_capacity, before.lattice_w, before.lattice_h),
{
}

/// A surface starts as large as its window, and is never empty.
pub proof fn law_surfaces_start_as_large_as_their_window(width: i32, height: i32, s: SurfaceState)
    requires
        call_ensures(SurfaceState::new, (width, height), s),
    ensures
        width >= 1 ==> s.width == width,
        height >= 1 ==> s.height == height,
        width < 1 ==> s.width == 1,
        height < 1 ==> s.height == 1,
{
}

} // verus!
