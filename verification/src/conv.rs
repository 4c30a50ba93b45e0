//! Configuration values for convolution layers. The layers themselves
//! consume the tensor surface from outside this core; only their
//! configuration records live here.

use vstd::prelude::*;

verus! {

/// Configuration of a 1-dimensional convolution.
#[derive(Clone, Copy, Debug, PartialEq, Eq, Structural)]
pub struct Conv1dConfig {
    pub padding: usize,
    pub stride: usize,
    pub dilation: usize,
    pub groups: usize,
}

impl Default for Conv1dConfig {
    /// No padding, unit stride, unit dilation, one group.
    fn default() -> (r: Self)
        ensures
            r.padding == 0 && r.stride == 1 && r.dilation == 1 && r.groups == 1,
    {
        Conv1dConfig { padding: 0, stride: 1, dilation: 1, groups: 1 }
    }
}

/// Configuration of a 2-dimensional convolution.
#[derive(Clone, Copy, Debug, PartialEq, Eq, Structural)]
pub struct Conv2dConfig {
    pub padding: usize,
    pub stride: usize,
    pub dilation: usize,
    pub groups: usize,
}

impl Default for Conv2dConfig {
    /// No padding, unit stride, unit dilation, one group.
    fn default() -> (r: Self)
        ensures
            r.padding == 0 && r.stride == 1 && r.dilation == 1 && r.groups == 1,
    {
        Conv2dConfig { padding: 0, stride: 1, dilation: 1, groups: 1 }
    }
}

/// Configuration of a transposed 2-dimensional convolution.
#[derive(Clone, Copy, Debug, PartialEq, Eq, Structural)]
pub struct ConvTranspose2dConfig {
    pub padding: usize,
    pub output_padding: usize,
    pub stride: usize,
    pub dilation: usize,
}

impl Default for ConvTranspose2dConfig {
    /// No padding of either kind, unit stride, unit dilation.
    fn default() -> (r: Self)
        ensures
            r.padding == 0 && r.output_padding == 0 && r.stride == 1 && r.dilation == 1,
    {
        ConvTranspose2dConfig { padding: 0, output_padding: 0, stride: 1, dilation: 1 }
    }
}

} // verus!
