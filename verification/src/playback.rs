use vstd::prelude::*;

verus! {

/// How many samples pass between two changes of pitch: two to the thirteenth.
pub const SAMPLES_PER_CHANGE: u64 = 8192;

/// Counts one more sample, wrapping around at the end of `u64`, and says
/// whether the new count falls on a pitch change (a multiple of
/// `SAMPLES_PER_CHANGE`).
pub fn count_sample(n_samples: u64) -> (r: (u64, bool))
    ensures
        r.0 == (n_samples as int + 1) % 0x1_0000_0000_0000_0000,
        r.1 == (r.0 % SAMPLES_PER_CHANGE == 0),
{
    let n = n_samples.wrapping_add(1);
    let period: u64 = 1u64 << 13u64;
    assert(period == SAMPLES_PER_CHANGE) by (bit_vector)
        requires
            period == 1u64 << 13u64,
    ;
    (n, n % period == 0)
}

/// Writes `value` into every channel of `frame`.
pub fn fill_frame<T: Copy>(frame: &mut [T], value: T)
    ensures
        final(frame)@.len() == old(frame)@.len(),
        forall|j: int| 0 <= j < final(frame)@.len() ==> #[trigger] final(frame)@[j] == value,
{
    let n = frame.len();
    let mut j: usize = 0;
    while j < n
        invariant
            j <= n,
            n == frame@.len(),
            n == old(frame)@.len(),
            forall|k: int| 0 <= k < j ==> #[trigger] frame@[k] == value,
        decreases n - j,
    {
        frame[j] = value;
        j += 1;
    }
}

} // verus!
