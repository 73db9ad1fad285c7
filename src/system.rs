//! Target platforms: an architecture and a kernel.
use vstd::prelude::*;

use crate::text::{push_str, str_eq};

verus! {

#[derive(Debug, Clone, Copy, PartialEq, Eq, Hash, Structural)]
pub enum Arch {
    Aarch64,
    X86_64,
}

#[derive(Debug, Clone, Copy, PartialEq, Eq, Hash, Structural)]
pub enum Kernel {
    Darwin,
    Linux,
}

/// A platform, rendered as `<arch>-<kernel>`.
#[derive(Debug, Clone, Copy, PartialEq, Eq, Hash, Structural)]
pub struct System {
    pub arch: Arch,
    pub kernel: Kernel,
}

/// A set of platforms: an absent component matches any.
#[derive(Debug, Clone, Copy, PartialEq, Eq, Structural)]
pub struct SystemPredicate {
    pub architecture: Option<Arch>,
    pub kernel: Option<Kernel>,
}

/// Why a platform name was refused.
#[derive(Debug)]
pub enum SystemError {
    /// A name that is neither a platform, an architecture nor a kernel.
    Unsupported(String),
    /// A host architecture other than `aarch64` and `x86_64`.
    UnsupportedArchitecture(String),
    /// A host operating system other than `linux` and `macos`.
    UnsupportedOperatingSystem(String),
}

pub open spec fn arch_name(a: Arch) -> Seq<char> {
    match a {
        Arch::Aarch64 => "aarch64"@,
        Arch::X86_64 => "x86_64"@,
    }
}

pub open spec fn kernel_name(k: Kernel) -> Seq<char> {
    match k {
        Kernel::Darwin => "darwin"@,
        Kernel::Linux => "linux"@,
    }
}

/// The rendering `<arch>-<kernel>`.
pub open spec fn system_name(s: System) -> Seq<char> {
    arch_name(s.arch) + "-"@ + kernel_name(s.kernel)
}

pub open spec fn arch_of(t: Seq<char>) -> Option<Arch> {
    if t == "aarch64"@ {
        Some(Arch::Aarch64)
    } else if t == "x86_64"@ {
        Some(Arch::X86_64)
    } else {
        None
    }
}

pub open spec fn kernel_of(t: Seq<char>) -> Option<Kernel> {
    if t == "darwin"@ {
        Some(Kernel::Darwin)
    } else if t == "linux"@ {
        Some(Kernel::Linux)
    } else {
        None
    }
}

/// The platform that a name denotes, if any.
pub open spec fn system_of(t: Seq<char>) -> Option<System> {
    if t == "aarch64-darwin"@ {
        Some(System { arch: Arch::Aarch64, kernel: Kernel::Darwin })
    } else if t == "aarch64-linux"@ {
        Some(System { arch: Arch::Aarch64, kernel: Kernel::Linux })
    } else if t == "x86_64-darwin"@ {
        Some(System { arch: Arch::X86_64, kernel: Kernel::Darwin })
    } else if t == "x86_64-linux"@ {
        Some(System { arch: Arch::X86_64, kernel: Kernel::Linux })
    } else {
        None
    }
}

/// The predicate that a name denotes: a full platform, a bare architecture or a bare kernel.
pub open spec fn predicate_of(t: Seq<char>) -> Option<SystemPredicate> {
    match system_of(t) {
        Some(s) => Some(SystemPredicate { architecture: Some(s.arch), kernel: Some(s.kernel) }),
        None => match arch_of(t) {
            Some(a) => Some(SystemPredicate { architecture: Some(a), kernel: None }),
            None => match kernel_of(t) {
                Some(k) => Some(SystemPredicate { architecture: None, kernel: Some(k) }),
                None => None,
            },
        },
    }
}

/// Whether a predicate admits a platform.
pub open spec fn admits(p: SystemPredicate, s: System) -> bool {
    &&& (p.architecture matches Some(a) ==> a == s.arch)
    &&& (p.kernel matches Some(k) ==> k == s.kernel)
}

impl Arch {
    /// Parses `aarch64` or `x86_64`.
    pub fn from_str(t: &str) -> (r: Option<Arch>)
        ensures
            r == arch_of(t@),
    {
        if str_eq(t, "aarch64") {
            Some(Arch::Aarch64)
        } else if str_eq(t, "x86_64") {
            Some(Arch::X86_64)
        } else {
            None
        }
    }

    pub fn as_str(&self) -> (r: &'static str)
        ensures
            r@ == arch_name(*self),
    {
        match self {
            Arch::Aarch64 => "aarch64",
            Arch::X86_64 => "x86_64",
        }
    }
}

impl Kernel {
    /// Parses `darwin` or `linux`.
    pub fn from_str(t: &str) -> (r: Option<Kernel>)
        ensures
            r == kernel_of(t@),
    {
        if str_eq(t, "darwin") {
            Some(Kernel::Darwin)
        } else if str_eq(t, "linux") {
            Some(Kernel::Linux)
        } else {
            None
        }
    }

    pub fn as_str(&self) -> (r: &'static str)
        ensures
            r@ == kernel_name(*self),
    {
        match self {
            Kernel::Darwin => "darwin",
            Kernel::Linux => "linux",
        }
    }
}

impl System {
    /// Parses one of the four supported platforms.
    pub fn from_str(t: &str) -> (r: Result<System, SystemError>)
        ensures
            match system_of(t@) {
                Some(s) => r == Ok::<System, SystemError>(s),
                None => r matches Err(SystemError::Unsupported(v)) && v@ == t@,
            },
    {
        if str_eq(t, "aarch64-darwin") {
            Ok(System { arch: Arch::Aarch64, kernel: Kernel::Darwin })
        } else if str_eq(t, "aarch64-linux") {
            Ok(System { arch: Arch::Aarch64, kernel: Kernel::Linux })
        } else if str_eq(t, "x86_64-darwin") {
            Ok(System { arch: Arch::X86_64, kernel: Kernel::Darwin })
        } else if str_eq(t, "x86_64-linux") {
            Ok(System { arch: Arch::X86_64, kernel: Kernel::Linux })
        } else {
            Err(SystemError::Unsupported(t.to_owned()))
        }
    }

    /// The rendering `<arch>-<kernel>`.
    pub fn to_string(&self) -> (r: String)
        ensures
            r@ == system_name(*self),
    {
        let mut r = String::new();
        push_str(&mut r, self.arch.as_str());
        push_str(&mut r, "-");
        push_str(&mut r, self.kernel.as_str());
        r
    }

    /// The platform of a host, from the architecture and operating-system names that
    /// the Rust toolchain reports for it.
    pub fn host(arch: &str, os: &str) -> (r: Result<System, SystemError>)
        ensures
            arch@ == "aarch64"@ && os@ == "linux"@ ==> r == Ok::<System, SystemError>(
                System { arch: Arch::Aarch64, kernel: Kernel::Linux },
            ),
            arch@ == "aarch64"@ && os@ == "macos"@ ==> r == Ok::<System, SystemError>(
                System { arch: Arch::Aarch64, kernel: Kernel::Darwin },
            ),
            arch@ == "x86_64"@ && os@ == "linux"@ ==> r == Ok::<System, SystemError>(
                System { arch: Arch::X86_64, kernel: Kernel::Linux },
            ),
            arch@ == "x86_64"@ && os@ == "macos"@ ==> r == Ok::<System, SystemError>(
                System { arch: Arch::X86_64, kernel: Kernel::Darwin },
            ),
            arch@ != "aarch64"@ && arch@ != "x86_64"@ ==> (r matches Err(
                SystemError::UnsupportedArchitecture(v),
            ) && v@ == arch@),
            (arch@ == "aarch64"@ || arch@ == "x86_64"@) && os@ != "linux"@ && os@ != "macos"@
                ==> (r matches Err(SystemError::UnsupportedOperatingSystem(v)) && v@ == os@),
    {
        proof {
            reveal_strlit("aarch64");
            reveal_strlit("x86_64");
            reveal_strlit("linux");
            reveal_strlit("macos");
            assert("aarch64"@.len() != "x86_64"@.len());
            assert("linux"@[0] != "macos"@[0]);
        }
        let a = if str_eq(arch, "aarch64") {
            Arch::Aarch64
        } else if str_eq(arch, "x86_64") {
            Arch::X86_64
        } else {
            return Err(SystemError::UnsupportedArchitecture(arch.to_owned()));
        };
        let k = if str_eq(os, "linux") {
            Kernel::Linux
        } else if str_eq(os, "macos") {
            Kernel::Darwin
        } else {
            return Err(SystemError::UnsupportedOperatingSystem(os.to_owned()));
        };
        Ok(System { arch: a, kernel: k })
    }
}

impl SystemPredicate {
    /// Parses a full platform, a bare architecture or a bare kernel.
    pub fn from_str(t: &str) -> (r: Result<SystemPredicate, SystemError>)
        ensures
            match predicate_of(t@) {
                Some(p) => r == Ok::<SystemPredicate, SystemError>(p),
                None => r matches Err(SystemError::Unsupported(v)) && v@ == t@,
            },
    {
        match System::from_str(t) {
            Ok(s) => Ok(SystemPredicate { architecture: Some(s.arch), kernel: Some(s.kernel) }),
            Err(_) => match Arch::from_str(t) {
                Some(a) => Ok(SystemPredicate { architecture: Some(a), kernel: None }),
                None => match Kernel::from_str(t) {
                    Some(k) => Ok(SystemPredicate { architecture: None, kernel: Some(k) }),
                    None => Err(SystemError::Unsupported(t.to_owned())),
                },
            },
        }
    }

    /// Whether this predicate admits `system`.
    pub fn admits(&self, system: &System) -> (r: bool)
        ensures
            r == admits(*self, *system),
    {
        let arch_ok = match self.architecture {
            Some(a) => a == system.arch,
            None => true,
        };
        let kernel_ok = match self.kernel {
            Some(k) => k == system.kernel,
            None => true,
        };
        arch_ok && kernel_ok
    }
}

/// Rendering a platform and parsing the result gives the platform back.
pub proof fn lemma_system_name_round_trip(s: System)
    ensures
        system_of(system_name(s)) == Some(s),
{
    reveal_strlit("aarch64");
    reveal_strlit("x86_64");
    reveal_strlit("darwin");
    reveal_strlit("linux");
    reveal_strlit("-");
    reveal_strlit("aarch64-darwin");
    reveal_strlit("aarch64-linux");
    reveal_strlit("x86_64-darwin");
    reveal_strlit("x86_64-linux");
    let n = system_name(s);
    match s.arch {
        Arch::Aarch64 => match s.kernel {
            Kernel::Darwin => {
                assert(n =~= "aarch64-darwin"@);
            },
            Kernel::Linux => {
                assert(n =~= "aarch64-linux"@);
                assert(n[8] != "aarch64-darwin"@[8]);
            },
        },
        Arch::X86_64 => match s.kernel {
            Kernel::Darwin => {
                assert(n =~= "x86_64-darwin"@);
                assert(n[0] != "aarch64-darwin"@[0] && n[0] != "aarch64-linux"@[0]);
            },
            Kernel::Linux => {
                assert(n =~= "x86_64-linux"@);
                assert(n.len() != "aarch64-darwin"@.len() && n.len() != "aarch64-linux"@.len());
                assert(n.len() != "x86_64-darwin"@.len());
            },
        },
    }
}

} // verus!
