//! Which device runtime a run goes to.
use vstd::prelude::*;
use vstd::string::*;
use crate::error::{ConfigIssue, PfError};

verus! {

/// Which device runtime to run on.
#[derive(Debug, Clone, Copy, PartialEq, Eq, Structural)]
pub enum Backend {
    /// The first of the others, in their order, that was built in and comes up.
    Auto,
    /// AMD ROCm / HIP.
    Hip,
    /// NVIDIA CUDA.
    Cuda,
    /// wgpu (Vulkan, Metal, DX12).
    Wgpu,
    /// The CPU runtime, for tests and machines without a GPU.
    Cpu,
}

/// The lower case of an ASCII letter; any other character as it is.
pub open spec fn lower(c: char) -> char {
    if 65 <= c as int <= 90 {
        (c as int + 32) as char
    } else {
        c
    }
}

/// A text with its ASCII letters in lower case.
pub open spec fn lowercase(s: Seq<char>) -> Seq<char> {
    s.map_values(|c: char| lower(c))
}

/// Trusted: `str::to_ascii_lowercase` of the standard library maps every character to
/// its ASCII lower case equivalent and leaves the others unchanged.
pub assume_specification[ str::to_ascii_lowercase ](s: &str) -> (r: String)
    ensures
        r@ == lowercase(s@),
;

/// The backend that a name in lower case stands for.
pub open spec fn named(s: Seq<char>) -> Option<Backend> {
    if s == "auto"@ {
        Some(Backend::Auto)
    } else if s == "hip"@ || s == "rocm"@ {
        Some(Backend::Hip)
    } else if s == "cuda"@ || s == "gpu"@ {
        Some(Backend::Cuda)
    } else if s == "wgpu"@ || s == "vulkan"@ || s == "metal"@ {
        Some(Backend::Wgpu)
    } else if s == "cpu"@ {
        Some(Backend::Cpu)
    } else {
        None
    }
}

/// Whether a text reads `name`.
fn reads(s: &String, name: &str) -> (r: bool)
    ensures
        r == (s@ == name@),
{
    *s == String::from_str(name)
}

impl Backend {
    /// The backend that a name stands for, whatever the case of its letters.
    pub fn from_str(s: &str) -> (r: Result<Backend, PfError>)
        ensures
            match named(lowercase(s@)) {
                Some(b) => r == Ok::<Backend, PfError>(b),
                None => r matches Err(PfError::Config(ConfigIssue::UnknownBackend { name }))
                    && name@ == lowercase(s@),
            },
    {
        let name = s.to_ascii_lowercase();
        if reads(&name, "auto") {
            Ok(Backend::Auto)
        } else if reads(&name, "hip") || reads(&name, "rocm") {
            Ok(Backend::Hip)
        } else if reads(&name, "cuda") || reads(&name, "gpu") {
            Ok(Backend::Cuda)
        } else if reads(&name, "wgpu") || reads(&name, "vulkan") || reads(&name, "metal") {
            Ok(Backend::Wgpu)
        } else if reads(&name, "cpu") {
            Ok(Backend::Cpu)
        } else {
            Err(PfError::Config(ConfigIssue::UnknownBackend { name }))
        }
    }

    /// The backend's name.
    pub open spec fn spelled(self) -> Seq<char> {
        match self {
            Backend::Auto => "Auto"@,
            Backend::Hip => "Hip"@,
            Backend::Cuda => "Cuda"@,
            Backend::Wgpu => "Wgpu"@,
            Backend::Cpu => "Cpu"@,
        }
    }

    /// The backend's name.
    fn spell(self) -> (r: &'static str)
        ensures
            r@ == self.spelled(),
    {
        match self {
            Backend::Auto => "Auto",
            Backend::Hip => "Hip",
            Backend::Cuda => "Cuda",
            Backend::Wgpu => "Wgpu",
            Backend::Cpu => "Cpu",
        }
    }

    /// The backend's name in lower case.
    pub fn label(self) -> (r: String)
        ensures
            r@ == lowercase(self.spelled()),
    {
        self.spell().to_ascii_lowercase()
    }
}

/// A backend's label, in whatever case, names that backend.
pub proof fn lemma_labels_name_backends(b: Backend, s: Seq<char>)
    requires
        lowercase(s) == lowercase(b.spelled()),
    ensures
        named(lowercase(s)) == Some(b),
{
    reveal_strlit("Auto");
    reveal_strlit("Hip");
    reveal_strlit("Cuda");
    reveal_strlit("Wgpu");
    reveal_strlit("Cpu");
    reveal_strlit("auto");
    reveal_strlit("hip");
    reveal_strlit("rocm");
    reveal_strlit("cuda");
    reveal_strlit("gpu");
    reveal_strlit("wgpu");
    reveal_strlit("vulkan");
    reveal_strlit("metal");
    reveal_strlit("cpu");
    match b {
        Backend::Auto => {
            assert(lowercase("Auto"@) =~= "auto"@);
        },
        Backend::Hip => {
            assert(lowercase("Hip"@) =~= "hip"@);
            assert("hip"@.len() == 3 && "auto"@.len() == 4);
        },
        Backend::Cuda => {
            assert(lowercase("Cuda"@) =~= "cuda"@);
            assert("cuda"@[0] == 'c' && "auto"@[0] == 'a' && "rocm"@[0] == 'r');
            assert("hip"@.len() == 3 && "cuda"@.len() == 4);
        },
        Backend::Wgpu => {
            assert(lowercase("Wgpu"@) =~= "wgpu"@);
            assert("wgpu"@[0] == 'w' && "auto"@[0] == 'a' && "rocm"@[0] == 'r' && "cuda"@[0] == 'c');
            assert("hip"@.len() == 3 && "gpu"@.len() == 3 && "wgpu"@.len() == 4);
        },
        Backend::Cpu => {
            assert(lowercase("Cpu"@) =~= "cpu"@);
            assert("cpu"@[0] == 'c' && "hip"@[0] == 'h' && "gpu"@[0] == 'g');
            assert("cpu"@.len() == 3 && "auto"@.len() == 4 && "rocm"@.len() == 4);
            assert("cuda"@.len() == 4 && "wgpu"@.len() == 4 && "vulkan"@.len() == 6);
            assert("metal"@.len() == 5);
        },
    }
}

// ---------------------------------------------------------------------------
// What was built in
// ---------------------------------------------------------------------------

/// The runtimes that a build holds.
#[derive(Debug, Clone, Copy)]
pub struct Build {
    pub hip: bool,
    pub cuda: bool,
    pub wgpu: bool,
    pub cpu: bool,
}

impl Build {
    /// Whether a backend was built in. `Auto` always is.
    pub open spec fn has(self, b: Backend) -> bool {
        match b {
            Backend::Auto => true,
            Backend::Hip => self.hip,
            Backend::Cuda => self.cuda,
            Backend::Wgpu => self.wgpu,
            Backend::Cpu => self.cpu,
        }
    }
}

/// One backend if it was built in.
pub open spec fn if_built(built: bool, b: Backend) -> Seq<Backend> {
    if built {
        seq![b]
    } else {
        Seq::empty()
    }
}

/// The backends of a build, most preferred first: HIP, CUDA, wgpu, CPU.
pub open spec fn preferred(build: Build) -> Seq<Backend> {
    if_built(build.hip, Backend::Hip) + if_built(build.cuda, Backend::Cuda) + if_built(
        build.wgpu,
        Backend::Wgpu,
    ) + if_built(build.cpu, Backend::Cpu)
}

/// Backends that a build can use, in order of preference.
pub fn available_backends(build: Build) -> (r: Vec<Backend>)
    ensures
        r@ == preferred(build),
        forall|b: Backend| b != Backend::Auto ==> (r@.contains(b) <==> build.has(b)),
{
    let mut r: Vec<Backend> = Vec::new();
    if build.hip {
        r.push(Backend::Hip);
    }
    if build.cuda {
        r.push(Backend::Cuda);
    }
    if build.wgpu {
        r.push(Backend::Wgpu);
    }
    if build.cpu {
        r.push(Backend::Cpu);
    }
    proof {
        assert(r@ =~= preferred(build));
        let h = if build.hip {
            1int
        } else {
            0
        };
        let c = h + if build.cuda {
            1int
        } else {
            0
        };
        let w = c + if build.wgpu {
            1int
        } else {
            0
        };
        assert forall|b: Backend| b != Backend::Auto implies (r@.contains(b) <==> build.has(b)) by {
            if build.hip {
                assert(r@[0] == Backend::Hip);
            }
            if build.cuda {
                assert(r@[h] == Backend::Cuda);
            }
            if build.wgpu {
                assert(r@[c] == Backend::Wgpu);
            }
            if build.cpu {
                assert(r@[w] == Backend::Cpu);
            }
        }
    }
    r
}

/// What a request for a backend that was not built in is answered.
pub open spec fn not_built(b: Backend) -> Seq<char> {
    match b {
        Backend::Auto => "compile with one of the `hip`, `cuda`, `wgpu` or `cpu` features"@,
        Backend::Hip => "built without the `hip` feature"@,
        Backend::Cuda => "built without the `cuda` feature"@,
        Backend::Wgpu => "built without the `wgpu` feature"@,
        Backend::Cpu => "built without the `cpu` feature"@,
    }
}

/// The error for a backend that was not built in; for `Auto`, that none was.
pub fn missing(b: Backend) -> (e: PfError)
    ensures
        e matches PfError::NoBackend(s) && s@ == not_built(b),
{
    let s: &str = match b {
        Backend::Auto => "compile with one of the `hip`, `cuda`, `wgpu` or `cpu` features",
        Backend::Hip => "built without the `hip` feature",
        Backend::Cuda => "built without the `cuda` feature",
        Backend::Wgpu => "built without the `wgpu` feature",
        Backend::Cpu => "built without the `cpu` feature",
    };
    PfError::NoBackend(String::from_str(s))
}

/// The error for a backend whose runtime panicked, with the panic's message where it
/// had one.
pub fn unavailable(b: Backend, message: Option<String>) -> (e: PfError)
    ensures
        e matches PfError::Device(s) && s@ == b.spelled() + " backend unavailable: "@ + (
        match message {
            Some(t) => t@,
            None => "panicked while initialising"@,
        }),
{
    let mut s = String::from_str(b.spell());
    s.append(" backend unavailable: ");
    match message {
        Some(t) => s.append(t.as_str()),
        None => s.append("panicked while initialising"),
    }
    PfError::Device(s)
}

// ---------------------------------------------------------------------------
// Trying backends in turn
// ---------------------------------------------------------------------------

/// What an automatic choice does next.
pub enum Probe {
    /// Try this backend.
    Try(Backend),
    /// Every backend failed: the error of the last one, or that there was none.
    GiveUp(PfError),
}

/// Where an automatic choice stands after `failures` backends failed, the last of
/// them with `last`.
pub open spec fn probe_after(candidates: Seq<Backend>, failures: int, last: PfError) -> Probe {
    if 0 <= failures < candidates.len() {
        Probe::Try(candidates[failures])
    } else {
        Probe::GiveUp(last)
    }
}

/// The next step of an automatic choice: the first backend that works is used, so a
/// step is only asked for after a failure. `last` is the error of the failure before,
/// if there was one.
pub fn probe(candidates: &[Backend], failures: usize, last: Option<PfError>) -> (r: Probe)
    requires
        last is Some <==> failures > 0,
    ensures
        last matches Some(e) ==> r == probe_after(candidates@, failures as int, e),
        last is None ==> if candidates@.len() > 0 {
            r == Probe::Try(candidates@[0])
        } else {
            r matches Probe::GiveUp(PfError::NoBackend(s)) && s@ == not_built(Backend::Auto)
        },
{
    if failures < candidates.len() {
        return Probe::Try(candidates[failures]);
    }
    match last {
        Some(e) => Probe::GiveUp(e),
        None => Probe::GiveUp(missing(Backend::Auto)),
    }
}

/// What an automatic choice over `outcomes`, one per candidate, comes to: the first
/// backend that works, or the error of the last.
pub open spec fn chosen(outcomes: Seq<Option<PfError>>, k: int) -> Option<int>
    decreases outcomes.len() - k,
{
    if k < 0 || k >= outcomes.len() {
        None
    } else if outcomes[k] is None {
        Some(k)
    } else {
        chosen(outcomes, k + 1)
    }
}

/// Probing takes the first candidate that works: every one before it was tried and
/// failed. Where none works, it gives up with the last error.
pub proof fn lemma_probing_finds_the_first(
    candidates: Seq<Backend>,
    outcomes: Seq<Option<PfError>>,
)
    requires
        candidates.len() == outcomes.len(),
    ensures
        chosen(outcomes, 0) matches Some(j) ==> {
            &&& 0 <= j < candidates.len()
            &&& outcomes[j] is None
            &&& forall|i: int| 0 <= i < j ==> (#[trigger] outcomes[i]) is Some
            &&& forall|i: int, e: PfError|
                0 <= i <= j ==> #[trigger] probe_after(candidates, i, e) == Probe::Try(candidates[i])
        },
        chosen(outcomes, 0) is None ==> {
            &&& forall|i: int| 0 <= i < outcomes.len() ==> (#[trigger] outcomes[i]) is Some
            &&& forall|e: PfError| #[trigger]
                probe_after(candidates, candidates.len() as int, e) == Probe::GiveUp(e)
        },
{
    lemma_chosen_is_first(outcomes, 0);
}

proof fn lemma_chosen_is_first(outcomes: Seq<Option<PfError>>, k: int)
    requires
        0 <= k,
    ensures
        chosen(outcomes, k) matches Some(j) ==> {
            &&& k <= j < outcomes.len()
            &&& outcomes[j] is None
            &&& forall|i: int| k <= i < j ==> (#[trigger] outcomes[i]) is Some
        },
        chosen(outcomes, k) is None ==> forall|i: int|
            k <= i < outcomes.len() ==> (#[trigger] outcomes[i]) is Some,
    decreases outcomes.len() - k,
{
    if k < outcomes.len() && outcomes[k] is Some {
        lemma_chosen_is_first(outcomes, k + 1);
    }
}

} // verus!
