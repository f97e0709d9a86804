//! Choosing the graphics adapter that a run takes place on.

use vstd::prelude::*;
use vstd::string::*;

verus! {

/// Why no adapter could be used.
#[derive(Debug)]
pub enum GpuError {
    /// No adapter is there that was asked for.
    AdapterNotFound,
    /// The adapter gave no device, for the reason given.
    DeviceRequest(String),
}

/// The adapter a run took place on.
#[derive(Debug, Clone)]
pub struct AdapterInfo {
    pub name: String,
    pub backend: String,
    pub driver: String,
    pub device_type: String,
}

/// The kinds of adapters.
#[derive(Debug, Clone, Copy, PartialEq, Eq, Structural)]
pub enum DeviceKind {
    DiscreteGpu,
    IntegratedGpu,
    VirtualGpu,
    Cpu,
    Other,
}

/// The interfaces that adapters are looked for on.
#[derive(Debug, Clone, Copy, PartialEq, Eq, Structural)]
pub enum BackendChoice {
    Vulkan,
    Metal,
    Dx12,
    Gl,
    /// The first-class interfaces, and GL.
    Any,
}

/// An adapter to choose from.
#[derive(Debug)]
pub struct Candidate {
    pub name: String,
    pub kind: DeviceKind,
}

/// How far back in line a kind of adapter stands.
pub open spec fn rank(kind: DeviceKind) -> int {
    match kind {
        DeviceKind::DiscreteGpu => 0,
        DeviceKind::IntegratedGpu => 1,
        DeviceKind::VirtualGpu => 2,
        DeviceKind::Cpu => 3,
        DeviceKind::Other => 4,
    }
}

fn rank_of(kind: DeviceKind) -> (r: u8)
    ensures
        r == rank(kind),
{
    match kind {
        DeviceKind::DiscreteGpu => 0,
        DeviceKind::IntegratedGpu => 1,
        DeviceKind::VirtualGpu => 2,
        DeviceKind::Cpu => 3,
        DeviceKind::Other => 4,
    }
}

/// The interface that `wanted` names.
pub open spec fn backend_named(wanted: Option<Seq<char>>) -> BackendChoice {
    if wanted == Some("vulkan"@) {
        BackendChoice::Vulkan
    } else if wanted == Some("metal"@) {
        BackendChoice::Metal
    } else if wanted == Some("dx12"@) {
        BackendChoice::Dx12
    } else if wanted == Some("gl"@) {
        BackendChoice::Gl
    } else {
        BackendChoice::Any
    }
}

/// The interface to look for adapters on; any, if none or an unknown one is
/// asked for.
pub fn choose_backend(wanted: &Option<String>) -> (r: BackendChoice)
    ensures
        r == backend_named(
            match *wanted {
                Some(name) => Some(name@),
                None => None,
            },
        ),
{
    match wanted {
        None => BackendChoice::Any,
        Some(name) => {
            if *name == String::from_str("vulkan") {
                BackendChoice::Vulkan
            } else if *name == String::from_str("metal") {
                BackendChoice::Metal
            } else if *name == String::from_str("dx12") {
                BackendChoice::Dx12
            } else if *name == String::from_str("gl") {
                BackendChoice::Gl
            } else {
                BackendChoice::Any
            }
        },
    }
}

/// The lower-case form of a text, by Unicode.
pub uninterp spec fn lowercase(text: Seq<char>) -> Seq<char>;

/// Lowers the case of a text with `str::to_lowercase`. All that is claimed is
/// that the result depends on the text alone.
#[verifier::external_body]
fn lowered(text: &String) -> (r: String)
    ensures
        r@ == lowercase(text@),
{
    text.to_lowercase()
}

/// `part` stands in `text` from place `i` on.
pub open spec fn stands_at(text: Seq<char>, part: Seq<char>, i: int) -> bool {
    0 <= i <= text.len() - part.len() && text.subrange(i, i + part.len()) == part
}

pub open spec fn has_part(text: Seq<char>, part: Seq<char>) -> bool {
    exists|i: int| #[trigger] stands_at(text, part, i)
}

fn chars_of(text: &String) -> (cs: Vec<char>)
    ensures
        cs@ == text@,
{
    let s = text.as_str();
    let n = s.unicode_len();
    let mut cs: Vec<char> = Vec::with_capacity(n);
    let mut i: usize = 0;
    while i < n
        invariant
            i <= n == text@.len(),
            s@ == text@,
            cs@ =~= text@.take(i as int),
        decreases n - i,
    {
        cs.push(s.get_char(i));
        i = i + 1;
    }
    assert(cs@ =~= text@);
    cs
}

fn part_at(text: &Vec<char>, part: &Vec<char>, i: usize) -> (r: bool)
    requires
        i + part@.len() <= text@.len(),
    ensures
        r == stands_at(text@, part@, i as int),
{
    let size = text.len();
    let mut k: usize = 0;
    while k < part.len()
        invariant
            k <= part@.len(),
            i + part@.len() <= text@.len() == size,
            forall|l: int| 0 <= l < k ==> text@[i + l] == #[trigger] part@[l],
        decreases part@.len() - k,
    {
        if text[i + k] != part[k] {
            proof {
                let there = text@.subrange(i as int, i + part@.len());
                assert(there[k as int] != part@[k as int]);
            }
            return false;
        }
        k = k + 1;
    }
    assert(text@.subrange(i as int, i + part@.len()) =~= part@);
    true
}

/// Whether `part` stands anywhere in `text`.
fn contains_part(text: &String, part: &String) -> (r: bool)
    ensures
        r == has_part(text@, part@),
{
    let (t, q) = (chars_of(text), chars_of(part));
    if q.len() > t.len() {
        return false;
    }
    let last = t.len() - q.len();
    let mut i: usize = 0;
    while i <= last
        invariant
            last == t@.len() - q@.len(),
            i <= last + 1,
            t@ == text@,
            q@ == part@,
            forall|k: int| 0 <= k < i ==> !stands_at(t@, q@, k),
        decreases last + 1 - i,
    {
        if part_at(&t, &q, i) {
            return true;
        }
        if i == last {
            return false;
        }
        i = i + 1;
    }
    false
}

/// Candidate `c` is one that was asked for: its name has the part `wanted`,
/// whatever the case, or nothing was asked for.
pub open spec fn asked_for(c: Candidate, wanted: Option<String>) -> bool {
    match wanted {
        None => true,
        Some(part) => has_part(lowercase(c.name@), lowercase(part@)),
    }
}

/// The place of the first of the best candidates that were asked for, discrete
/// adapters before integrated, virtual, software and other ones.
pub fn pick_adapter(candidates: &Vec<Candidate>, wanted: &Option<String>) -> (r: Result<usize, GpuError>)
    ensures
        match r {
            Ok(i) => {
                &&& i < candidates@.len()
                &&& asked_for(candidates@[i as int], *wanted)
                &&& forall|j: int|
                    0 <= j < candidates@.len() && asked_for(#[trigger] candidates@[j], *wanted) ==> rank(
                        candidates@[i as int].kind,
                    ) < rank(candidates@[j].kind) || rank(candidates@[i as int].kind) == rank(candidates@[j].kind) && i <= j
            },
            Err(e) => {
                &&& e is AdapterNotFound
                &&& forall|j: int| 0 <= j < candidates@.len() ==> !asked_for(#[trigger] candidates@[j], *wanted)
            },
        },
{
    let mut best: Option<usize> = None;
    let mut i: usize = 0;
    while i < candidates.len()
        invariant
            i <= candidates@.len(),
            match best {
                Some(b) => {
                    &&& b < i
                    &&& asked_for(candidates@[b as int], *wanted)
                    &&& forall|j: int|
                        0 <= j < i && asked_for(#[trigger] candidates@[j], *wanted) ==> rank(candidates@[b as int].kind)
                            < rank(candidates@[j].kind) || rank(candidates@[b as int].kind) == rank(candidates@[j].kind) && b
                            <= j
                },
                None => forall|j: int| 0 <= j < i ==> !asked_for(#[trigger] candidates@[j], *wanted),
            },
        decreases candidates@.len() - i,
    {
        let fits = match wanted {
            None => true,
            Some(part) => contains_part(&lowered(&candidates[i].name), &lowered(part)),
        };
        assert(fits == asked_for(candidates@[i as int], *wanted));
        if fits {
            let better = match best {
                None => true,
                Some(b) => rank_of(candidates[i].kind) < rank_of(candidates[b].kind),
            };
            if better {
                best = Some(i);
            }
        }
        i = i + 1;
    }
    match best {
        Some(b) => Ok(b),
        None => Err(GpuError::AdapterNotFound),
    }
}

/// The adapter that is picked is one that was asked for, and none before it of its
/// kind was. A discrete one is picked if there is any, else an integrated one, else a
/// virtual one, else one in software.
pub proof fn law_the_best_adapter_is_picked(candidates: Vec<Candidate>, wanted: Option<String>, i: usize, j: int)
    requires
        call_ensures(pick_adapter, (&candidates, &wanted), Ok::<usize, GpuError>(i)),
        0 <= j < candidates@.len(),
        asked_for(candidates@[j], wanted),
    ensures
        i < candidates@.len() && asked_for(candidates@[i as int], wanted),
        ({
            let (best, other) = (candidates@[i as int].kind, candidates@[j].kind);
            &&& other == DeviceKind::DiscreteGpu ==> best == DeviceKind::DiscreteGpu
            &&& other == DeviceKind::IntegratedGpu ==> best == DeviceKind::DiscreteGpu || best == DeviceKind::IntegratedGpu
            &&& other == DeviceKind::VirtualGpu ==> best != DeviceKind::Cpu && best != DeviceKind::Other
            &&& other == DeviceKind::Cpu ==> best != DeviceKind::Other
            &&& other == best ==> i <= j
        }),
{
}

/// An interface is chosen by its name, and by no other.
pub proof fn law_interfaces_are_chosen_by_name(name: String, r: BackendChoice)
    requires
        call_ensures(choose_backend, (&Some(name),), r),
    ensures
        r == BackendChoice::Vulkan <==> name@ == "vulkan"@,
        r == BackendChoice::Metal <==> name@ == "metal"@,
        r == BackendChoice::Dx12 <==> name@ == "dx12"@,
        r == BackendChoice::Gl <==> name@ == "gl"@,
{
    reveal_strlit("vulkan");
    reveal_strlit("metal");
    reveal_strlit("dx12");
    reveal_strlit("gl");
    assert("vulkan"@.len() == 6 && "metal"@.len() == 5 && "dx12"@.len() == 4 && "gl"@.len() == 2);
}

} // verus!
