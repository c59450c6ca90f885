use vstd::prelude::*;

verus! {

/// Calls `num_cpus::get`, the number of logical CPUs available to the
/// process. Nothing is claimed of the number: it depends on the machine,
/// and on some platforms the source passes on what the system reports
/// without raising it to at least one.
#[verifier::external_body]
fn available_cpus() -> usize {
    num_cpus::get()
}

/// The number of worker threads for a requested count: the request itself,
/// or, when the request is `0` (detect), the number of CPUs found, but at
/// least one.
pub fn thread_count_for(requested: usize, cpus: usize) -> (n: usize)
    ensures
        n == if requested == 0 {
            if cpus >= 1 {
                cpus
            } else {
                1
            }
        } else {
            requested
        },
{
    if requested == 0 {
        if cpus >= 1 {
            cpus
        } else {
            1
        }
    } else {
        requested
    }
}

/// The number of worker threads for a requested count, detecting the CPUs
/// of the machine when the request is `0`.
pub fn resolve_thread_count(requested: usize) -> (n: usize)
    ensures
        requested != 0 ==> n == requested,
        n >= 1,
{
    if requested == 0 {
        let cpus = available_cpus();
        thread_count_for(requested, cpus)
    } else {
        requested
    }
}

} // verus!
