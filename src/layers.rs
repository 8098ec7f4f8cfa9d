//! Numeric settings shared by the model layers: the half-width matrix
//! product switch and the choice of attention kernel.
use vstd::prelude::*;

verus! {

/// Matrix multiplication settings. Half-width products are chosen per chunk
/// (see the batch builder) unless they are inhibited for the whole model.
pub struct MatMul {
    pub via_f16: bool,
    pub inhibit_f16: bool,
}

impl MatMul {
    pub fn new(inhibit_f16: bool) -> (r: Self)
        ensures
            !r.via_f16,
            r.inhibit_f16 == inhibit_f16,
    {
        MatMul { via_f16: false, inhibit_f16 }
    }
}

/// Switches half-width products on or off; an inhibited model keeps them off.
pub fn set_use_matmul_via_f16(m: &mut MatMul, via_f16: bool)
    ensures
        final(m).via_f16 == if old(m).inhibit_f16 { old(m).via_f16 } else { via_f16 },
        final(m).inhibit_f16 == old(m).inhibit_f16,
{
    if !m.inhibit_f16 {
        m.via_f16 = via_f16;
    }
}

pub fn get_use_matmul_via_f16(m: &MatMul) -> (r: bool)
    ensures
        r == m.via_f16,
{
    m.via_f16
}

/// The kernel that computes attention.
#[derive(Debug, Clone, Copy, PartialEq, Eq, Structural)]
pub enum AttentionKernel {
    Flash,
    CublasLt,
    Naive,
}

/// Computes softmax(QK^T/sqrt(d_k))V with one of several kernels.
pub struct ScaledDotProductAttention;

impl ScaledDotProductAttention {
    /// Flash attention when asked for; else the cuBLASLt kernel on a CUDA
    /// device that has it, unless products run at half width; else the
    /// plain kernel.
    pub fn kernel_for(&self, use_flash_attn: bool, has_cublaslt: bool, matmul: &MatMul) -> (r: AttentionKernel)
        ensures
            r == if use_flash_attn {
                AttentionKernel::Flash
            } else if has_cublaslt && !matmul.via_f16 {
                AttentionKernel::CublasLt
            } else {
                AttentionKernel::Naive
            },
    {
        if use_flash_attn {
            AttentionKernel::Flash
        } else if has_cublaslt && !get_use_matmul_via_f16(matmul) {
            AttentionKernel::CublasLt
        } else {
            AttentionKernel::Naive
        }
    }
}

/// Rotary embedding scaling of a Llama 3 configuration.
#[derive(Debug, Clone, Copy, PartialEq, Eq, Structural)]
pub enum Llama3RopeType {
    Llama3,
    Default,
}

impl Llama3RopeType {
    pub fn default() -> (r: Self)
        ensures
            r == Llama3RopeType::Default,
    {
        Llama3RopeType::Default
    }
}

} // verus!
