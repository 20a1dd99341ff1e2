//! The tensor library's values and the few of its operations the cache needs.
use vstd::prelude::*;

verus! {

#[verifier::external_type_specification]
#[verifier::external_body]
pub struct ExTensor(candle_core::Tensor);

#[verifier::external_type_specification]
#[verifier::external_body]
pub struct ExDevice(candle_core::Device);

#[verifier::external_type_specification]
#[verifier::external_body]
pub struct ExTensorError(candle_core::Error);

/// Relies on `Tensor::to_device`: a copy of the tensor placed on `device`.
#[verifier::external_body]
pub(crate) fn tensor_to_device(
    t: &candle_core::Tensor,
    device: &candle_core::Device,
) -> (r: Result<candle_core::Tensor, candle_core::Error>) {
    t.to_device(device)
}

/// Relies on `Tensor::device`: the device the tensor lives on.
#[verifier::external_body]
pub(crate) fn tensor_device(t: &candle_core::Tensor) -> (r: candle_core::Device) {
    t.device().clone()
}

/// Relies on `Device::is_cpu`: whether the device is host memory.
#[verifier::external_body]
pub(crate) fn device_is_host(d: &candle_core::Device) -> (r: bool) {
    d.is_cpu()
}

/// Relies on `Device::Cpu`: the host device.
#[verifier::external_body]
pub(crate) fn host_device() -> (r: candle_core::Device) {
    candle_core::Device::Cpu
}

/// Relies on `Tensor::clone`: a tensor is a shared handle (`Arc`), and its
/// clone is a handle on the same tensor.
#[verifier::external_body]
pub(crate) fn tensor_clone(t: &candle_core::Tensor) -> (r: candle_core::Tensor)
    ensures
        r == *t,
{
    t.clone()
}

/// Relies on `Tensor::stack` along a new leading dimension: it fails on an
/// empty list.
#[verifier::external_body]
pub(crate) fn tensor_stack(ts: &Vec<candle_core::Tensor>) -> (r: Result<candle_core::Tensor, candle_core::Error>)
    ensures
        ts@.len() == 0 ==> r is Err,
{
    candle_core::Tensor::stack(ts, 0)
}

/// Relies on `Tensor::dim`: the size of the leading dimension.
#[verifier::external_body]
pub(crate) fn tensor_leading_dim(t: &candle_core::Tensor) -> (r: Result<usize, candle_core::Error>) {
    t.dim(0)
}

/// Relies on `Tensor::chunk` along the leading dimension: at most `n`
/// pieces (exactly `n` when the dimension has size `n`).
#[verifier::external_body]
pub(crate) fn tensor_chunk(t: &candle_core::Tensor, n: usize) -> (r: Result<Vec<candle_core::Tensor>, candle_core::Error>)
    requires
        n > 0,
    ensures
        r matches Ok(v) ==> v@.len() <= n,
{
    t.chunk(n, 0)
}

/// Relies on `Tensor::squeeze`: drops the leading dimension of size one.
#[verifier::external_body]
pub(crate) fn tensor_squeeze(t: &candle_core::Tensor) -> (r: Result<candle_core::Tensor, candle_core::Error>) {
    t.squeeze(0)
}

} // verus!
