//! What the files of a release are called.

use crate::text::same;
use vstd::prelude::*;

verus! {

/// The name of the binary for a CPU architecture, if one is built for it.
pub open spec fn artifact_name(arch: Seq<char>) -> Option<Seq<char>> {
    if arch == "x86_64"@ {
        Some("nulnet"@)
    } else if arch == "aarch64"@ {
        Some("nulnet-aarch64"@)
    } else {
        None
    }
}

/// What is said of an architecture that no binary is built for.
pub open spec fn unsupported_arch(arch: Seq<char>) -> Seq<char> {
    "unsupported CPU architecture for prebuilt binaries: "@ + arch
}

/// Release artifact basename for a CPU (e.g. `nulnet`, `nulnet-aarch64`).
pub fn binary_artifact_name(arch: &str) -> (res: Result<&'static str, String>)
    ensures
        match res {
            Ok(name) => artifact_name(arch@) == Some(name@),
            Err(e) => artifact_name(arch@) is None && e@ == unsupported_arch(arch@),
        },
{
    if same(arch, "x86_64") {
        Ok("nulnet")
    } else if same(arch, "aarch64") {
        Ok("nulnet-aarch64")
    } else {
        let mut e = "unsupported CPU architecture for prebuilt binaries: ".to_string();
        e.append(arch);
        Err(e)
    }
}

/// The name of the file that holds the digest of the binary for a CPU.
pub fn checksum_artifact_name(arch: &str) -> (res: Result<String, String>)
    ensures
        match res {
            Ok(name) => artifact_name(arch@) matches Some(binary) && name@ == binary + ".sha256"@,
            Err(e) => artifact_name(arch@) is None && e@ == unsupported_arch(arch@),
        },
{
    match binary_artifact_name(arch) {
        Ok(binary) => {
            let mut name = binary.to_string();
            name.append(".sha256");
            Ok(name)
        },
        Err(e) => Err(e),
    }
}

// ─── What holds of releases ──────────────────────────────────────────────────

/// A release has a binary for two architectures, and for no other: the one for
/// x86_64 has the plain name, the one for aarch64 says so.
pub proof fn two_architectures_have_a_binary(arch: Seq<char>)
    ensures
        arch == "x86_64"@ ==> artifact_name(arch) == Some("nulnet"@),
        arch == "aarch64"@ ==> artifact_name(arch) == Some("nulnet-aarch64"@),
        arch != "x86_64"@ && arch != "aarch64"@ ==> artifact_name(arch) is None,
        artifact_name(arch) is None ==> unsupported_arch(arch)
            == "unsupported CPU architecture for prebuilt binaries: "@ + arch,
{
    reveal_strlit("x86_64");
    reveal_strlit("aarch64");
    assert("x86_64"@.len() != "aarch64"@.len());
}

} // verus!
