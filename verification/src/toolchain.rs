//! Computable pieces of the toolchain installer that surrounds the proving
//! system. The install flow itself (download, archive unpacking, linking) is
//! I/O and lives outside the library; what can be stated and checked stands
//! here: path and URL assembly, and the retry backoff.
use vstd::prelude::*;

verus! {

use vstd::arithmetic::power2::pow2;
use vstd::string::StringExecFns;

/// The file, inside the installer's working directory, that records the tag
/// of the installed toolchain.
pub fn toolchain_tag_file(dir: &str) -> (r: String)
    ensures
        r@ == dir@ + "/.toolchaintag"@,
{
    let mut out = String::from_str(dir);
    out.append("/.toolchaintag");
    out
}

/// The release URL a toolchain archive with a given tag is downloaded from,
/// for a given host target triple.
pub fn toolchain_url(tag: &str, target: &str) -> (r: String)
    ensures
        r@ == "https://github.com/a16z/rust/releases/download/"@ + tag@ + "/rust-toolchain-"@
            + target@ + ".tar.gz"@,
{
    let mut out = String::from_str("https://github.com/a16z/rust/releases/download/");
    out.append(tag);
    out.append("/rust-toolchain-");
    out.append(target);
    out.append(".tar.gz");
    out
}

/// The exponential-backoff delay, in milliseconds, before retrying a failed
/// download: a value drawn uniformly below `pow2(attempt) * base_ms`. The
/// draw comes from the process entropy source, so only the bound is
/// promised.
pub fn delay_timeout(attempt: usize, base_ms: u64) -> (r: u64)
    requires
        attempt < 64,
        base_ms >= 1,
        pow2(attempt as nat) * base_ms <= u64::MAX,
    ensures
        r < pow2(attempt as nat) * base_ms,
{
    proof {
        vstd::arithmetic::power2::lemma_pow2_pos(attempt as nat);
        assert(1 * pow2(attempt as nat) == pow2(attempt as nat)) by (nonlinear_arith);
        assert(pow2(attempt as nat) * base_ms >= 1) by (nonlinear_arith)
            requires
                pow2(attempt as nat) >= 1,
                base_ms >= 1,
        ;
        assert(pow2(attempt as nat) <= pow2(attempt as nat) * base_ms) by (nonlinear_arith)
            requires
                pow2(attempt as nat) >= 1,
                base_ms >= 1,
        ;
        vstd::bits::lemma_u64_shl_is_mul(1, attempt as u64);
    }
    let bound = (1u64 << (attempt as u64)) * base_ms;
    let entropy: u64 = rand::random();
    entropy % bound
}

} // verus!
