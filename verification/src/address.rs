//! Local-socket address selection.
//!
//! The listener's address is chosen once at startup from the
//! platform's naming capability: a namespaced name where the platform
//! offers one (no filesystem artifact to clean up), else a well-known
//! temporary path.

use vstd::prelude::*;

verus! {

/// Which kinds of local-socket names the platform offers.
#[derive(PartialEq, Eq, Structural, Clone, Copy, Debug)]
pub enum NameSupport {
    /// Only filesystem paths can be used.
    OnlyPaths,
    /// Only names in a dedicated namespace can be used.
    OnlyNamespaced,
    /// Both kinds can be used.
    Both,
}

/// The address for a given naming capability: prefer the namespaced
/// name, fall back to the well-known path.
pub fn socket_name(support: NameSupport) -> (r: &'static str)
    ensures
        support == NameSupport::OnlyPaths ==> r@ == "/tmp/nanometers.sock"@,
        support != NameSupport::OnlyPaths ==> r@ == "@nanometers.sock"@,
{
    match support {
        NameSupport::OnlyPaths => "/tmp/nanometers.sock",
        NameSupport::OnlyNamespaced => "@nanometers.sock",
        NameSupport::Both => "@nanometers.sock",
    }
}

/// The kernel socket buffer size to request for the listener: large
/// enough that one whole snapshot (`capacity + 1` words of four bytes)
/// fits with room to spare, so a single write of a snapshot is
/// unlikely to block or complete partially.
pub fn socket_buffer_size(capacity: usize) -> (r: usize)
    requires
        capacity <= 65534,
    ensures
        r >= 4 * (capacity + 1),
{
    262142
}

/// Relies on interprocess's `NameTypeSupport::query`: it reports which
/// kinds of local-socket names the running platform supports. The
/// answer depends on the platform alone; nothing more is assumed of it.
#[verifier::external_body]
fn query_name_support() -> (r: NameSupport)
    ensures
        r == NameSupport::OnlyPaths || r == NameSupport::OnlyNamespaced || r == NameSupport::Both,
{
    match interprocess::local_socket::NameTypeSupport::query() {
        interprocess::local_socket::NameTypeSupport::OnlyPaths => NameSupport::OnlyPaths,
        interprocess::local_socket::NameTypeSupport::OnlyNamespaced => NameSupport::OnlyNamespaced,
        interprocess::local_socket::NameTypeSupport::Both => NameSupport::Both,
    }
}

/// The address the listener binds and a consumer connects to on this
/// platform.
pub fn choose_socket_name() -> (r: &'static str)
    ensures
        r@ == "/tmp/nanometers.sock"@ || r@ == "@nanometers.sock"@,
{
    let support = query_name_support();
    socket_name(support)
}

} // verus!
