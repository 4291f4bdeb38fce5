//! The ids under which the metrics library tells metrics apart.
use vstd::prelude::*;

verus! {

/// One step of the hash: the byte is mixed in, and the whole multiplied, modulo
/// 2 to the 64.
pub open spec fn mix(hash: u64, byte: u8) -> u64 {
    ((hash ^ (byte as u64)) * 0x100_0000_01b3u64) as u64
}

/// The hash of the first `n` characters of a name in ASCII.
pub open spec fn hash_of(name: Seq<char>, n: nat) -> u64
    decreases n,
{
    if n == 0 {
        0xcbf2_9ce4_8422_2325
    } else {
        mix(hash_of(name, (n - 1) as nat), name[n - 1] as u8)
    }
}

/// The id that [`prometheus::core::Desc::new`] gives a metric without fixed
/// labels: the FNV-1a hash of its name and a byte that ends it.
pub open spec fn metric_id(name: Seq<char>) -> u64 {
    mix(hash_of(name, name.len()), 0xff)
}

spec fn mix4(hash: u64, a: u8, b: u8, c: u8, d: u8) -> u64 {
    mix(mix(mix(mix(hash, a), b), c), d)
}

spec fn mix8(hash: u64, a: u8, b: u8, c: u8, d: u8, e: u8, f: u8, g: u8, h: u8) -> u64 {
    mix4(mix4(hash, a, b, c, d), e, f, g, h)
}

pub(crate) proof fn lemma_id_of_requests_total()
    ensures
        metric_id("inference_requests_total"@) == 0x66be_0e3a_6502_67ef,
{
    reveal_strlit("inference_requests_total");
    reveal_with_fuel(hash_of, 25);
    assert(mix(mix8(
        mix8(
            mix8(
                0xcbf2_9ce4_8422_2325u64,
                105u8, 110u8, 102u8, 101u8, 114u8, 101u8, 110u8, 99u8,
            ),
            101u8, 95u8, 114u8, 101u8, 113u8, 117u8, 101u8, 115u8,
        ),
        116u8, 115u8, 95u8, 116u8, 111u8, 116u8, 97u8, 108u8,
    ), 255u8) == 0x66be_0e3a_6502_67efu64) by (bit_vector);
}

pub(crate) proof fn lemma_id_of_batches_total()
    ensures
        metric_id("inference_batches_total"@) == 0x23f0_10c4_42b0_52ff,
{
    reveal_strlit("inference_batches_total");
    reveal_with_fuel(hash_of, 24);
    assert(mix8(
        mix8(
            mix8(
                0xcbf2_9ce4_8422_2325u64,
                105u8, 110u8, 102u8, 101u8, 114u8, 101u8, 110u8, 99u8,
            ),
            101u8, 95u8, 98u8, 97u8, 116u8, 99u8, 104u8, 101u8,
        ),
        115u8, 95u8, 116u8, 111u8, 116u8, 97u8, 108u8, 255u8,
    ) == 0x23f0_10c4_42b0_52ffu64) by (bit_vector);
}

pub(crate) proof fn lemma_id_of_inflight()
    ensures
        metric_id("inference_inflight"@) == 0x377d_9ec1_6a0b_9b2d,
{
    reveal_strlit("inference_inflight");
    reveal_with_fuel(hash_of, 19);
    assert(mix(mix(mix(mix8(
        mix8(
            0xcbf2_9ce4_8422_2325u64,
            105u8, 110u8, 102u8, 101u8, 114u8, 101u8, 110u8, 99u8,
        ),
        101u8, 95u8, 105u8, 110u8, 102u8, 108u8, 105u8, 103u8,
    ), 104u8), 116u8), 255u8) == 0x377d_9ec1_6a0b_9b2du64) by (bit_vector);
}

pub(crate) proof fn lemma_id_of_capacity()
    ensures
        metric_id("inference_capacity"@) == 0xbf54_8031_ea2d_e776,
{
    reveal_strlit("inference_capacity");
    reveal_with_fuel(hash_of, 19);
    assert(mix(mix(mix(mix8(
        mix8(
            0xcbf2_9ce4_8422_2325u64,
            105u8, 110u8, 102u8, 101u8, 114u8, 101u8, 110u8, 99u8,
        ),
        101u8, 95u8, 99u8, 97u8, 112u8, 97u8, 99u8, 105u8,
    ), 116u8), 121u8), 255u8) == 0xbf54_8031_ea2d_e776u64) by (bit_vector);
}

pub(crate) proof fn lemma_id_of_executors_in_use()
    ensures
        metric_id("inference_executors_in_use"@) == 0x2a6b_4516_309b_d22a,
{
    reveal_strlit("inference_executors_in_use");
    reveal_with_fuel(hash_of, 27);
    assert(mix(mix(mix(mix8(
        mix8(
            mix8(
                0xcbf2_9ce4_8422_2325u64,
                105u8, 110u8, 102u8, 101u8, 114u8, 101u8, 110u8, 99u8,
            ),
            101u8, 95u8, 101u8, 120u8, 101u8, 99u8, 117u8, 116u8,
        ),
        111u8, 114u8, 115u8, 95u8, 105u8, 110u8, 95u8, 117u8,
    ), 115u8), 101u8), 255u8) == 0x2a6b_4516_309b_d22au64) by (bit_vector);
}

pub(crate) proof fn lemma_id_of_configured_batch_size()
    ensures
        metric_id("inference_configured_batch_size"@) == 0xb7d9_ffc5_5247_e85f,
{
    reveal_strlit("inference_configured_batch_size");
    reveal_with_fuel(hash_of, 32);
    assert(mix8(
        mix8(
            mix8(
                mix8(
                    0xcbf2_9ce4_8422_2325u64,
                    105u8, 110u8, 102u8, 101u8, 114u8, 101u8, 110u8, 99u8,
                ),
                101u8, 95u8, 99u8, 111u8, 110u8, 102u8, 105u8, 103u8,
            ),
            117u8, 114u8, 101u8, 100u8, 95u8, 98u8, 97u8, 116u8,
        ),
        99u8, 104u8, 95u8, 115u8, 105u8, 122u8, 101u8, 255u8,
    ) == 0xb7d9_ffc5_5247_e85fu64) by (bit_vector);
}

pub(crate) proof fn lemma_id_of_loaded_models()
    ensures
        metric_id("loaded_models"@) == 0x6d30_3075_02d3_5a34,
{
    reveal_strlit("loaded_models");
    reveal_with_fuel(hash_of, 14);
    assert(mix(mix(mix(mix(mix(mix(mix8(
        0xcbf2_9ce4_8422_2325u64,
        108u8, 111u8, 97u8, 100u8, 101u8, 100u8, 95u8, 109u8,
    ), 111u8), 100u8), 101u8), 108u8), 115u8), 255u8) == 0x6d30_3075_02d3_5a34u64) by (bit_vector);
}

}
